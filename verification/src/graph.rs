use vstd::prelude::*;

use crate::distance::{dist_of, distance, is_distance, is_symmetric};
use crate::link::{link_lt, Link};
use crate::node::Node;
use crate::sorted::{
    ascending, descending, distinct_targets, has_index, insert_descending, is_least, lemma_ascending_unique, lemma_least_exists,
    lemma_descending_unique, lemma_sorted_desc_insert, offer, offer_result,
    offered, targets,
};

verus! {

/// A Hierarchical Navigable Small World index over vectors of type `V`.
///
/// Every inserted vector becomes a node. A node lives on layers `0..levels`;
/// on each of them it keeps a bounded list of links to nearby nodes. The
/// entry point is a node of the top layer, where every walk starts.
///
/// Distances are not computed here: every operation that needs them takes a
/// distance function, which must be a function of the two vectors.
#[allow(non_snake_case)]
pub struct Hnsw<V> {
    M: usize,
    M0: usize,
    ef_construction: usize,
    ef_search: usize,
    entry_point: usize,
    data: Vec<V>,
    nodes: Vec<Node>,
    max_layer: usize,
    epoch: usize,
}

impl<V: Copy> Hnsw<V> {
    /// Number of vectors (and nodes) in the index.
    pub closed spec fn size(&self) -> nat {
        self.nodes@.len()
    }

    /// The stored vectors, by node index.
    pub closed spec fn vectors(&self) -> Seq<V> {
        self.data@
    }

    /// Number of layers node `i` lives on.
    pub closed spec fn levels(&self, i: int) -> nat {
        self.nodes@[i].layers@.len()
    }

    /// Neighbour list of node `i` on layer `l`.
    pub closed spec fn links(&self, i: int, l: int) -> Seq<Link> {
        self.nodes@[i].layers@[l]@
    }

    pub closed spec fn entry(&self) -> nat {
        self.entry_point as nat
    }

    pub closed spec fn top_layer(&self) -> nat {
        self.max_layer as nat
    }

    /// The parameters `(M, M0, ef_construction, ef_search)`.
    pub closed spec fn params(&self) -> (nat, nat, nat, nat) {
        (self.M as nat, self.M0 as nat, self.ef_construction as nat, self.ef_search as nat)
    }

    /// The bound on the length of a neighbour list on layer `l`.
    pub closed spec fn max_conn(&self, l: int) -> nat {
        if l == 0 {
            self.M0 as nat
        } else {
            self.M as nat
        }
    }

    /// Some node of layer `l` links to node `v` on that layer.
    pub closed spec fn is_target(&self, v: int, l: int) -> bool {
        exists|i: int, j: int|
            0 <= i < self.size() && 0 <= l < self.levels(i) && 0 <= j < self.links(i, l).len()
                && #[trigger] self.links(i, l)[j].node_index == v
    }

    /// Node `v` has been reached by the current walk.
    closed spec fn marked(&self, v: int) -> bool {
        self.nodes@[v].epoch == self.epoch
    }

    closed spec fn links_ok(&self) -> bool {
        forall|i: int, l: int, j: int|
            0 <= i < self.size() && 0 <= l < self.levels(i) && 0 <= j < self.links(i, l).len()
                ==> {
                let t = #[trigger] self.links(i, l)[j].node_index;
                &&& t < self.size()
                &&& l < self.levels(t as int)
            }
    }

    closed spec fn lists_ok(&self) -> bool {
        forall|i: int, l: int|
            0 <= i < self.size() && 0 <= l < self.levels(i) ==> {
                &&& #[trigger] self.links(i, l).len() <= self.max_conn(l)
                &&& distinct_targets(self.links(i, l))
            }
    }

    /// The invariant that every operation keeps, save for the bound of each
    /// node's height by the top layer, which an insertion restores at its end.
    closed spec fn wf_core(&self) -> bool {
        &&& self.M > 1
        &&& self.M0 > 0
        &&& self.ef_construction > 0
        &&& self.ef_search > 0
        &&& self.data@.len() == self.nodes@.len()
        &&& self.size() > 0 ==> self.entry_point < self.size() && self.levels(
            self.entry_point as int,
        ) == self.max_layer + 1
        &&& self.size() == 0 ==> self.entry_point == 0 && self.max_layer == 0
        &&& forall|i: int| 0 <= i < self.size() ==> #[trigger] self.levels(i) >= 1
        &&& forall|i: int| 0 <= i < self.size() ==> #[trigger] self.nodes@[i].epoch <= self.epoch
        &&& self.links_ok()
        &&& self.lists_ok()
    }

    /// Well-formedness of the index:
    /// - the parameters are those that construction accepts;
    /// - there is one node per vector, and each lives on at least one layer;
    /// - the entry point lives on the top layer, and no node lives above it;
    /// - every link points to a node that lives on the link's layer;
    /// - a neighbour list on layer `l` holds at most `max_conn(l)` links, and no
    ///   node twice.
    pub closed spec fn wf(&self) -> bool {
        &&& self.wf_core()
        &&& forall|i: int| 0 <= i < self.size() ==> #[trigger] self.levels(i) <= self.max_layer + 1
    }

    /// `self` and `o` hold the same vectors, parameters and links; only the
    /// visit marks may differ.
    pub closed spec fn same_graph(&self, o: &Self) -> bool {
        &&& self.M == o.M
        &&& self.M0 == o.M0
        &&& self.ef_construction == o.ef_construction
        &&& self.ef_search == o.ef_search
        &&& self.entry_point == o.entry_point
        &&& self.max_layer == o.max_layer
        &&& self.data@ == o.data@
        &&& self.nodes@.len() == o.nodes@.len()
        &&& forall|i: int|
            0 <= i < self.nodes@.len() ==> #[trigger] self.nodes@[i].layers == o.nodes@[i].layers
    }

    proof fn lemma_same_graph(&self, o: &Self)
        requires
            self.same_graph(o),
        ensures
            o.same_graph(self),
            self.size() == o.size(),
            self.vectors() == o.vectors(),
            forall|i: int| 0 <= i < self.size() ==> #[trigger] self.levels(i) == o.levels(i),
            forall|i: int, l: int|
                0 <= i < self.size() ==> #[trigger] self.links(i, l) == o.links(i, l),
            forall|v: int, l: int| #[trigger] self.is_target(v, l) == o.is_target(v, l),
            forall|cands: Seq<Link>, l: int, ext: bool, t: int|
                #[trigger] self.from_pool(cands, l, ext, t) == o.from_pool(cands, l, ext, t),
    {
        assert forall|cands: Seq<Link>, l: int, ext: bool, t: int|
            #[trigger] self.from_pool(cands, l, ext, t) implies o.from_pool(cands, l, ext, t) by {
            if !has_index(cands, t) {
                let (c, j) = choose|c: int, j: int|
                    0 <= c < cands.len() && cands[c].node_index < self.size()
                        && 0 <= j < self.links(cands[c].node_index as int, l).len()
                        && #[trigger] self.links(cands[c].node_index as int, l)[j].node_index == t;
                let i = cands[c].node_index as int;
                assert(self.nodes@[i].layers == o.nodes@[i].layers);
                assert(o.links(i, l)[j].node_index == t);
            }
        }
        assert forall|cands: Seq<Link>, l: int, ext: bool, t: int|
            #[trigger] o.from_pool(cands, l, ext, t) implies self.from_pool(cands, l, ext, t) by {
            if !has_index(cands, t) {
                let (c, j) = choose|c: int, j: int|
                    0 <= c < cands.len() && cands[c].node_index < o.size()
                        && 0 <= j < o.links(cands[c].node_index as int, l).len()
                        && #[trigger] o.links(cands[c].node_index as int, l)[j].node_index == t;
                let i = cands[c].node_index as int;
                assert(self.nodes@[i].layers == o.nodes@[i].layers);
                assert(self.links(i, l)[j].node_index == t);
            }
        }
        assert forall|v: int, l: int| #[trigger] self.is_target(v, l) implies o.is_target(v, l) by {
            let (i, j) = choose|i: int, j: int|
                0 <= i < self.size() && 0 <= l < self.levels(i) && 0 <= j < self.links(i, l).len()
                    && #[trigger] self.links(i, l)[j].node_index == v;
            assert(self.nodes@[i].layers == o.nodes@[i].layers);
            assert(o.links(i, l)[j].node_index == v);
        }
        assert forall|v: int, l: int| #[trigger] o.is_target(v, l) implies self.is_target(v, l) by {
            let (i, j) = choose|i: int, j: int|
                0 <= i < o.size() && 0 <= l < o.levels(i) && 0 <= j < o.links(i, l).len()
                    && #[trigger] o.links(i, l)[j].node_index == v;
            assert(self.nodes@[i].layers == o.nodes@[i].layers);
            assert(self.links(i, l)[j].node_index == v);
        }
    }

    /// Marks do not take part in well-formedness, as long as none is ahead
    /// of the current one.
    proof fn lemma_wf_same_graph(&self, o: &Self)
        requires
            self.wf_core(),
            o.same_graph(self),
            forall|i: int| 0 <= i < o.size() ==> #[trigger] o.nodes@[i].epoch <= o.epoch,
        ensures
            o.wf_core(),
            self.wf() ==> o.wf(),
    {
        o.lemma_same_graph(self);
        assert(o.links_ok()) by {
            assert forall|i: int, l: int, j: int|
                0 <= i < o.size() && 0 <= l < o.levels(i) && 0 <= j < o.links(i, l).len()
                    implies {
                let t = #[trigger] o.links(i, l)[j].node_index;
                &&& t < o.size()
                &&& l < o.levels(t as int)
            } by {
                assert(self.links(i, l)[j] == o.links(i, l)[j]);
            }
        }
        assert(o.lists_ok()) by {
            assert forall|i: int, l: int| 0 <= i < o.size() && 0 <= l < o.levels(i) implies {
                &&& #[trigger] o.links(i, l).len() <= o.max_conn(l)
                &&& distinct_targets(o.links(i, l))
            } by {
                assert(self.links(i, l) == o.links(i, l));
            }
        }
    }

    /// An empty index with the given parameters.
    ///
    /// `M` bounds the neighbour lists above the bottom layer, `M0` those of
    /// the bottom layer; `ef_construction` and `ef_search` are the widths of
    /// the layer walks of insertion and of search.
    #[allow(non_snake_case)]
    pub fn new(M: usize, M0: usize, ef_construction: usize, ef_search: usize) -> (r: Self)
        requires
            M > 1,
            M0 > 0,
            ef_construction > 0,
            ef_search > 0,
        ensures
            r.wf(),
            r.size() == 0,
            r.params() == (M as nat, M0 as nat, ef_construction as nat, ef_search as nat),
            r.entry() == 0,
            r.top_layer() == 0,
    {
        Hnsw {
            M,
            M0,
            ef_construction,
            ef_search,
            entry_point: 0,
            data: Vec::new(),
            nodes: Vec::new(),
            max_layer: 0,
            epoch: 0,
        }
    }

    /// An empty index with `M0 = 2 * M`, `ef_construction = 128` and
    /// `ef_search = 32`.
    #[allow(non_snake_case)]
    pub fn new_default(M: usize) -> (r: Self)
        requires
            M > 1,
            2 * M <= usize::MAX,
        ensures
            r.wf(),
            r.size() == 0,
            r.params() == (M as nat, 2 * M as nat, 128nat, 32nat),
            r.entry() == 0,
            r.top_layer() == 0,
    {
        Self::new(M, 2 * M, 128, 32)
    }

    /// The bound on the length of a neighbour list on layer `lyr`.
    fn max_connections(&self, lyr: usize) -> (r: usize)
        ensures
            r == self.max_conn(lyr as int),
    {
        if lyr == 0 {
            self.M0
        } else {
            self.M
        }
    }

    /// Clears every mark, and the current one, when the current mark has
    /// reached the largest value it can take.
    fn avoid_epoch_overflow(&mut self)
        requires
            old(self).wf_core(),
        ensures
            final(self).wf_core(),
            final(self).same_graph(old(self)),
            final(self).epoch < usize::MAX,
            old(self).epoch == usize::MAX ==> final(self).epoch == 0 && forall|i: int|
                0 <= i < final(self).size() ==> #[trigger] final(self).nodes@[i].epoch == 0,
            old(self).epoch != usize::MAX ==> *final(self) == *old(self),
    {
        if self.epoch == usize::MAX {
            self.epoch = 0;
            let n = self.nodes.len();
            let mut i: usize = 0;
            while i < n
                invariant
                    0 <= i <= n,
                    n == self.nodes@.len(),
                    self.epoch == 0,
                    self.same_graph(old(self)),
                    forall|k: int| 0 <= k < i ==> #[trigger] self.nodes@[k].epoch == 0,
                decreases n - i,
            {
                self.nodes[i].epoch = 0;
                i += 1;
            }
            proof {
                old(self).lemma_wf_same_graph(self);
            }
        }
    }

    /// Starts a new walk: afterwards no node is marked.
    fn begin_epoch(&mut self)
        requires
            old(self).wf_core(),
        ensures
            final(self).wf_core(),
            final(self).same_graph(old(self)),
            forall|i: int| 0 <= i < final(self).size() ==> !#[trigger] final(self).marked(i),
    {
        self.avoid_epoch_overflow();
        let ghost mid = *self;
        self.epoch = self.epoch + 1;
        proof {
            mid.lemma_wf_same_graph(self);
            mid.lemma_same_graph(old(self));
        }
    }

    /// The neighbour lists of every node, layer by layer.
    pub closed spec fn graph(&self) -> Seq<Seq<Seq<Link>>> {
        self.nodes@.map_values(|n: Node| n.layers@.map_values(|v: Vec<Link>| v@))
    }

    /// One step of a walk towards `q`: node `nb` is reached. The state is the
    /// kept links (increasing), the links still to expand (decreasing) and
    /// the reached nodes. A node reached before changes nothing; otherwise its
    /// link is offered to the kept links, as `offer_result` says.
    pub closed spec fn visit<F: Fn(&V, &V) -> u32>(
        data: Seq<V>,
        q: V,
        ef: int,
        f: F,
        st: (Seq<Link>, Seq<Link>, Set<int>),
        nb: int,
    ) -> (Seq<Link>, Seq<Link>, Set<int>) {
        if st.2.contains(nb) {
            st
        } else {
            let x = Link { node_index: nb as usize, distance: dist_of(f, q, data[nb]) };
            let r = offer_result(st.0, st.1, ef, x);
            (r.0, r.1, st.2.insert(nb))
        }
    }

    /// The first `j` neighbours of node `c` on layer `lyr` of `g` reached in
    /// turn.
    pub closed spec fn visit_all<F: Fn(&V, &V) -> u32>(
        g: Seq<Seq<Seq<Link>>>,
        data: Seq<V>,
        q: V,
        lyr: int,
        ef: int,
        f: F,
        st: (Seq<Link>, Seq<Link>, Set<int>),
        c: int,
        j: int,
    ) -> (Seq<Link>, Seq<Link>, Set<int>)
        decreases j,
    {
        if j <= 0 {
            st
        } else {
            Self::visit(
                data,
                q,
                ef,
                f,
                Self::visit_all(g, data, q, lyr, ef, f, st, c, j - 1),
                g[c][lyr][j - 1].node_index as int,
            )
        }
    }

    /// The links a walk returns from state `st`, with at most `fuel` more
    /// expansions: it stops when nothing is left to expand or the closest
    /// link left is further than the furthest kept one; otherwise it takes
    /// that link out and reaches each of its node's neighbours in turn.
    pub closed spec fn walk_from<F: Fn(&V, &V) -> u32>(
        g: Seq<Seq<Seq<Link>>>,
        data: Seq<V>,
        q: V,
        lyr: int,
        ef: int,
        f: F,
        st: (Seq<Link>, Seq<Link>, Set<int>),
        fuel: nat,
    ) -> Seq<Link>
        decreases fuel,
    {
        if fuel == 0 || st.1.len() == 0 || st.1.last().distance > st.0.last().distance {
            st.0
        } else {
            let c = st.1.last().node_index as int;
            Self::walk_from(
                g,
                data,
                q,
                lyr,
                ef,
                f,
                Self::visit_all(g, data, q, lyr, ef, f, (st.0, st.1.drop_last(), st.2), c, g[c][lyr].len() as int),
                (fuel - 1) as nat,
            )
        }
    }

    /// What the walk of layer `lyr` from `ep` towards `q`, keeping the `ef`
    /// closest links, returns: it starts with `ep` kept and to expand, and
    /// never needs more expansions than there are nodes.
    pub closed spec fn walk<F: Fn(&V, &V) -> u32>(&self, q: V, ep: int, lyr: int, ef: int, f: F) -> Seq<Link> {
        let x = Link { node_index: ep as usize, distance: dist_of(f, q, self.data@[ep]) };
        Self::walk_from(self.graph(), self.data@, q, lyr, ef, f, (seq![x], seq![x], set![ep]), self.size() + 1)
    }

    /// Nodes `vs` of layer `lyr`, all below `n`, have the same lists and
    /// vectors in `g1`, `d1` as in `g2`, `d2`, and link only to each other.
    spec fn walks_agree(
        g1: Seq<Seq<Seq<Link>>>,
        d1: Seq<V>,
        g2: Seq<Seq<Seq<Link>>>,
        d2: Seq<V>,
        lyr: int,
        vs: Set<int>,
        n: int,
    ) -> bool {
        forall|t: int|
            #[trigger] vs.contains(t) ==> {
                &&& 0 <= t < n <= usize::MAX
                &&& g1[t][lyr] == g2[t][lyr]
                &&& d1[t] == d2[t]
                &&& forall|j: int| 0 <= j < g2[t][lyr].len() ==> vs.contains(#[trigger] g2[t][lyr][j].node_index as int)
            }
    }

    /// A walk state whose links to expand are in decreasing order, to
    /// reached nodes of `vs`, and whose reached nodes are nodes of `vs`.
    spec fn state_in(st: (Seq<Link>, Seq<Link>, Set<int>), vs: Set<int>) -> bool {
        &&& descending(st.1)
        &&& forall|k: int|
            0 <= k < st.1.len() ==> vs.contains((#[trigger] st.1[k]).node_index as int) && st.2.contains(
                st.1[k].node_index as int,
            )
        &&& forall|v: int| #[trigger] st.2.contains(v) ==> vs.contains(v)
        &&& st.2.finite()
    }

    proof fn lemma_seen_bound(seen: Set<int>, vs: Set<int>, n: int)
        requires
            forall|v: int| #[trigger] seen.contains(v) ==> vs.contains(v),
            forall|t: int| #[trigger] vs.contains(t) ==> 0 <= t < n,
            seen.finite(),
            n >= 0,
        ensures
            seen.len() <= n,
    {
        vstd::set_lib::lemma_int_range(0, n);
        assert(seen.subset_of(vstd::set_lib::set_int_range(0, n))) by {
            assert forall|v: int| seen.contains(v) implies vstd::set_lib::set_int_range(0, n).contains(v) by {
                assert(vs.contains(v));
            }
        }
        vstd::set_lib::lemma_len_subset(seen, vstd::set_lib::set_int_range(0, n));
    }

    proof fn lemma_visit_agree<F: Fn(&V, &V) -> u32>(
        g1: Seq<Seq<Seq<Link>>>,
        d1: Seq<V>,
        g2: Seq<Seq<Seq<Link>>>,
        d2: Seq<V>,
        q: V,
        lyr: int,
        ef: int,
        f: F,
        vs: Set<int>,
        n: int,
        st: (Seq<Link>, Seq<Link>, Set<int>),
        nb: int,
    )
        requires
            Self::walks_agree(g1, d1, g2, d2, lyr, vs, n),
            Self::state_in(st, vs),
            vs.contains(nb),
        ensures
            ({
                let r = Self::visit(d2, q, ef, f, st, nb);
                &&& Self::visit(d1, q, ef, f, st, nb) == r
                &&& Self::state_in(r, vs)
                &&& r.1.len() + (n - r.2.len()) <= st.1.len() + (n - st.2.len())
            }),
    {
        if !st.2.contains(nb) {
            assert(d1[nb] == d2[nb]);
            let x = Link { node_index: nb as usize, distance: dist_of(f, q, d2[nb]) };
            assert(!st.1.contains(x)) by {
                if st.1.contains(x) {
                    let k = choose|k: int| 0 <= k < st.1.len() && st.1[k] == x;
                    assert(st.2.contains(st.1[k].node_index as int));
                }
            }
            lemma_sorted_desc_insert(st.1, x);
            let r = Self::visit(d2, q, ef, f, st, nb);
            let seen = st.2.insert(nb);
            assert(r.2 == seen);
            assert forall|k: int| 0 <= k < r.1.len() implies vs.contains((#[trigger] r.1[k]).node_index as int) && r.2.contains(
                r.1[k].node_index as int,
            ) by {
                assert(r.1.contains(r.1[k]));
                if r.1[k] != x {
                    if r.1 != st.1 {
                        assert(st.1.contains(r.1[k]));
                    }
                    let m = choose|m: int| 0 <= m < st.1.len() && st.1[m] == r.1[k];
                }
            }
        }
    }

    proof fn lemma_visit_all_agree<F: Fn(&V, &V) -> u32>(
        g1: Seq<Seq<Seq<Link>>>,
        d1: Seq<V>,
        g2: Seq<Seq<Seq<Link>>>,
        d2: Seq<V>,
        q: V,
        lyr: int,
        ef: int,
        f: F,
        vs: Set<int>,
        n: int,
        st: (Seq<Link>, Seq<Link>, Set<int>),
        c: int,
        j: int,
    )
        requires
            Self::walks_agree(g1, d1, g2, d2, lyr, vs, n),
            Self::state_in(st, vs),
            vs.contains(c),
            0 <= j <= g2[c][lyr].len(),
        ensures
            ({
                let r = Self::visit_all(g2, d2, q, lyr, ef, f, st, c, j);
                &&& Self::visit_all(g1, d1, q, lyr, ef, f, st, c, j) == r
                &&& Self::state_in(r, vs)
                &&& r.1.len() + (n - r.2.len()) <= st.1.len() + (n - st.2.len())
            }),
        decreases j,
    {
        if j > 0 {
            Self::lemma_visit_all_agree(g1, d1, g2, d2, q, lyr, ef, f, vs, n, st, c, j - 1);
            let m = Self::visit_all(g2, d2, q, lyr, ef, f, st, c, j - 1);
            let nb = g2[c][lyr][j - 1].node_index as int;
            assert(vs.contains(nb));
            assert(g1[c][lyr] == g2[c][lyr]);
            Self::lemma_visit_agree(g1, d1, g2, d2, q, lyr, ef, f, vs, n, m, nb);
        }
    }

    /// Walks over lists and vectors that agree on the nodes they can reach
    /// return the same links, with enough expansions to spare.
    proof fn lemma_walk_from_agree<F: Fn(&V, &V) -> u32>(
        g1: Seq<Seq<Seq<Link>>>,
        d1: Seq<V>,
        g2: Seq<Seq<Seq<Link>>>,
        d2: Seq<V>,
        q: V,
        lyr: int,
        ef: int,
        f: F,
        vs: Set<int>,
        n: int,
        st: (Seq<Link>, Seq<Link>, Set<int>),
        fuel1: nat,
        fuel2: nat,
    )
        requires
            Self::walks_agree(g1, d1, g2, d2, lyr, vs, n),
            Self::state_in(st, vs),
            fuel1 >= st.1.len() + (n - st.2.len()) + 1,
            fuel2 >= st.1.len() + (n - st.2.len()) + 1,
        ensures
            Self::walk_from(g1, d1, q, lyr, ef, f, st, fuel1) == Self::walk_from(g2, d2, q, lyr, ef, f, st, fuel2),
        decreases fuel1,
    {
        if n >= 0 {
            Self::lemma_seen_bound(st.2, vs, n);
        }
        if st.1.len() > 0 && !(st.1.last().distance > st.0.last().distance) {
            let c = st.1.last().node_index as int;
            assert(vs.contains(c));
            assert(g1[c][lyr] == g2[c][lyr]);
            let sp = (st.0, st.1.drop_last(), st.2);
            assert(Self::state_in(sp, vs)) by {
                assert forall|a: int, b: int| 0 <= a < b < sp.1.len() implies link_lt(#[trigger] sp.1[b], #[trigger] sp.1[a]) by {
                    assert(sp.1[a] == st.1[a] && sp.1[b] == st.1[b]);
                }
                assert forall|k: int| 0 <= k < sp.1.len() implies vs.contains((#[trigger] sp.1[k]).node_index as int)
                    && sp.2.contains(sp.1[k].node_index as int) by {
                    assert(sp.1[k] == st.1[k]);
                }
            }
            Self::lemma_visit_all_agree(g1, d1, g2, d2, q, lyr, ef, f, vs, n, sp, c, g2[c][lyr].len() as int);
            let nx = Self::visit_all(g2, d2, q, lyr, ef, f, sp, c, g2[c][lyr].len() as int);
            Self::lemma_walk_from_agree(g1, d1, g2, d2, q, lyr, ef, f, vs, n, nx, (fuel1 - 1) as nat, (fuel2 - 1) as nat);
        }
    }

    /// A walk of layer `lyr` of `a`, the index with a node appended that
    /// nothing on that layer links to, is the walk of `o`, the index before.
    proof fn lemma_walk_agrees_before<F: Fn(&V, &V) -> u32>(a: Self, o: Self, q: V, ep: int, lyr: int, ef: int, f: F)
        requires
            o.wf_core(),
            a.size() == o.size() + 1,
            forall|i: int| 0 <= i < o.size() ==> #[trigger] a.data@[i] == o.data@[i],
            forall|i: int| 0 <= i < o.size() ==> #[trigger] a.levels(i) == o.levels(i),
            forall|i: int| 0 <= i < o.size() && lyr < o.levels(i) ==> #[trigger] a.links(i, lyr) == o.links(i, lyr),
            0 <= ep < o.size() < usize::MAX,
            0 <= lyr < o.levels(ep),
        ensures
            a.walk(q, ep, lyr, ef, f) == o.walk(q, ep, lyr, ef, f),
    {
        let n = o.size() as int;
        let vs = Set::new(|t: int| 0 <= t < n && lyr < o.levels(t));
        assert(Self::walks_agree(a.graph(), a.data@, o.graph(), o.data@, lyr, vs, n)) by {
            assert forall|t: int| #[trigger] vs.contains(t) implies {
                &&& 0 <= t < n <= usize::MAX
                &&& a.graph()[t][lyr] == o.graph()[t][lyr]
                &&& a.data@[t] == o.data@[t]
                &&& forall|j: int| 0 <= j < o.graph()[t][lyr].len() ==> vs.contains(#[trigger] o.graph()[t][lyr][j].node_index as int)
            } by {
                a.lemma_graph_at(t, lyr);
                o.lemma_graph_at(t, lyr);
                assert(a.links(t, lyr) == o.links(t, lyr));
                assert forall|j: int| 0 <= j < o.graph()[t][lyr].len() implies vs.contains(#[trigger] o.graph()[t][lyr][j].node_index as int) by {
                    assert(o.links(t, lyr)[j] == o.graph()[t][lyr][j]);
                    assert(o.links_ok());
                }
            }
        }
        let x = Link { node_index: ep as usize, distance: dist_of(f, q, o.data@[ep]) };
        let st = (seq![x], seq![x], set![ep]);
        assert(Self::state_in(st, vs)) by {
            assert(set![ep].len() == 1);
        }
        assert(set![ep].len() == 1);
        Self::lemma_walk_from_agree(a.graph(), a.data@, o.graph(), o.data@, q, lyr, ef, f, vs, n, st, (a.size() + 1) as nat, (o.size() + 1) as nat);
    }

    proof fn lemma_graph_at(&self, i: int, l: int)
        requires
            0 <= i < self.size(),
            0 <= l < self.levels(i),
        ensures
            self.graph()[i][l] == self.links(i, l),
    {
        let g = self.graph();
        assert(g[i] == self.nodes@[i].layers@.map_values(|v: Vec<Link>| v@));
    }

    /// Two indexes with the same vectors and lists walk alike.
    proof fn lemma_walk_graph(&self, o: &Self)
        requires
            self.same_graph(o),
        ensures
            self.graph() == o.graph(),
            self.data@ == o.data@,
            self.size() == o.size(),
    {
        assert forall|i: int| 0 <= i < self.nodes@.len() implies #[trigger] self.graph()[i] == o.graph()[i] by {
            assert(self.nodes@[i].layers == o.nodes@[i].layers);
        }
        assert(self.graph() =~= o.graph());
    }

    /// `x` is a link, from the query `q`, to a node of layer `lyr` that the
    /// current walk has reached.
    closed spec fn reached<F: Fn(&V, &V) -> u32>(&self, q: V, lyr: int, f: F, x: Link) -> bool {
        &&& x.node_index < self.size()
        &&& lyr < self.levels(x.node_index as int)
        &&& self.marked(x.node_index as int)
        &&& x.distance == dist_of(f, q, self.data@[x.node_index as int])
    }

    /// Every neighbour of node `u` on layer `lyr` has been reached.
    closed spec fn expanded(&self, u: int, lyr: int) -> bool {
        forall|j: int|
            0 <= j < self.links(u, lyr).len() ==> self.marked(
                #[trigger] self.links(u, lyr)[j].node_index as int,
            )
    }

    /// What a walk of layer `lyr` from `ep` towards `q` with width `ef`
    /// returns:
    /// - between 1 and `ef` links, in increasing order, to distinct nodes of
    ///   layer `lyr`, each with its distance from `q`;
    /// - each to `ep` or to a node that some node links to on that layer;
    /// - `ep`, and every neighbour on layer `lyr` of a returned node, is
    ///   returned, or is no closer to `q` than any returned node, and then
    ///   `ef` nodes are returned.
    pub closed spec fn layer_result<F: Fn(&V, &V) -> u32>(
        &self,
        q: V,
        ep: int,
        lyr: int,
        ef: int,
        f: F,
        r: Seq<Link>,
    ) -> bool {
        &&& 1 <= r.len() <= ef
        &&& ascending(r)
        &&& distinct_targets(r)
        &&& forall|k: int|
            0 <= k < r.len() ==> {
                let t = #[trigger] r[k].node_index;
                &&& t < self.size()
                &&& lyr < self.levels(t as int)
                &&& r[k].distance == dist_of(f, q, self.data@[t as int])
                &&& (t == ep || self.is_target(t as int, lyr))
            }
        &&& self.covered(q, lyr, ef, f, r, ep)
        &&& forall|k: int, j: int|
            0 <= k < r.len() && 0 <= j < self.links(r[k].node_index as int, lyr).len()
                ==> self.covered(
                q,
                lyr,
                ef,
                f,
                r,
                #[trigger] self.links(r[k].node_index as int, lyr)[j].node_index as int,
            )
    }

    /// Node `v` is in `r`, or `r` holds `ef` links and none is further from
    /// `q` than `v`.
    pub closed spec fn covered<F: Fn(&V, &V) -> u32>(
        &self,
        q: V,
        lyr: int,
        ef: int,
        f: F,
        r: Seq<Link>,
        v: int,
    ) -> bool {
        has_index(r, v) || (r.len() == ef && forall|k: int|
            0 <= k < r.len() ==> #[trigger] r[k].distance <= dist_of(f, q, self.data@[v]))
    }

    /// The state of a walk of layer `lyr` towards `q`: `best` holds the
    /// kept links in increasing order, `frontier` the links still to expand in
    /// decreasing order, `seen` the reached nodes. Every kept node is
    /// expanded or still in the frontier, save `skip`, the node being
    /// expanded.
    closed spec fn walk_inv<F: Fn(&V, &V) -> u32>(
        &self,
        g0: Self,
        q: V,
        ep: int,
        lyr: int,
        ef: int,
        f: F,
        best: Seq<Link>,
        frontier: Seq<Link>,
        seen: Set<int>,
        skip: int,
    ) -> bool {
        &&& self.same_graph(&g0)
        &&& g0.wf_core()
        &&& forall|i: int| 0 <= i < self.size() ==> #[trigger] self.nodes@[i].epoch <= self.epoch
        &&& is_distance(f)
        &&& 0 < ef
        &&& 0 <= ep < self.size()
        &&& 0 <= lyr < self.levels(ep)
        &&& self.marked(ep)
        &&& 1 <= best.len() <= ef
        &&& ascending(best)
        &&& descending(frontier)
        &&& forall|k: int|
            0 <= k < best.len() ==> {
                &&& self.reached(q, lyr, f, #[trigger] best[k])
                &&& (best[k].node_index == ep || self.is_target(best[k].node_index as int, lyr))
            }
        &&& forall|k: int| 0 <= k < frontier.len() ==> self.reached(q, lyr, f, #[trigger] frontier[k])
        &&& forall|v: int|
            0 <= v < self.size() && #[trigger] self.marked(v) && !has_index(best, v) ==> {
                &&& best.len() == ef
                &&& best.last().distance <= dist_of(f, q, self.data@[v])
            }
        &&& forall|u: int|
            0 <= u < self.size() && u != skip && #[trigger] self.marked(u) && has_index(best, u)
                && !has_index(frontier, u) ==> self.expanded(u, lyr)
        &&& seen.finite()
        &&& seen.len() <= self.size()
        &&& forall|v: int| #[trigger] seen.contains(v) <==> (0 <= v < self.size() && self.marked(v))
    }


    /// When the closest link of the frontier is further than every kept one,
    /// every kept node has been expanded.
    proof fn lemma_walk_stop<F: Fn(&V, &V) -> u32>(
        &self,
        g0: Self,
        q: V,
        ep: int,
        lyr: int,
        ef: int,
        f: F,
        best: Seq<Link>,
        frontier: Seq<Link>,
        seen: Set<int>,
    )
        requires
            self.walk_inv(g0, q, ep, lyr, ef, f, best, frontier, seen, -1),
            frontier.len() > 0,
            frontier.last().distance > best.last().distance,
        ensures
            forall|u: int| 0 <= u < self.size() && #[trigger] has_index(best, u) ==> self.expanded(u, lyr),
    {
        assert forall|u: int| 0 <= u < self.size() && #[trigger] has_index(best, u) implies self.expanded(u, lyr) by {
            let k = choose|k: int| 0 <= k < best.len() && #[trigger] best[k].node_index == u;
            assert(self.reached(q, lyr, f, best[k]));
            if k < best.len() - 1 {
                assert(link_lt(best[k], best[best.len() - 1]));
            }
            if has_index(frontier, u) {
                let k2 = choose|k2: int| 0 <= k2 < frontier.len() && #[trigger] frontier[k2].node_index == u;
                assert(self.reached(q, lyr, f, frontier[k2]));
                if k2 < frontier.len() - 1 {
                    assert(link_lt(frontier[frontier.len() - 1], frontier[k2]));
                }
            }
        }
    }

    /// Taking the closest link off the frontier leaves its node the one kept
    /// node that may be neither expanded nor in the frontier.
    proof fn lemma_walk_pop<F: Fn(&V, &V) -> u32>(
        &self,
        g0: Self,
        q: V,
        ep: int,
        lyr: int,
        ef: int,
        f: F,
        best: Seq<Link>,
        frontier0: Seq<Link>,
        frontier1: Seq<Link>,
        seen: Set<int>,
    )
        requires
            self.walk_inv(g0, q, ep, lyr, ef, f, best, frontier0, seen, -1),
            frontier0.len() > 0,
            frontier1 == frontier0.drop_last(),
        ensures
            self.walk_inv(g0, q, ep, lyr, ef, f, best, frontier1, seen, frontier0.last().node_index as int),
            self.reached(q, lyr, f, frontier0.last()),
    {
        let c = frontier0.last().node_index as int;
        assert(self.reached(q, lyr, f, frontier0[frontier0.len() - 1]));
        assert forall|k: int| 0 <= k < frontier1.len() implies self.reached(q, lyr, f, #[trigger] frontier1[k]) by {
            assert(frontier1[k] == frontier0[k]);
        }
        assert forall|u: int|
            0 <= u < self.size() && u != c && #[trigger] self.marked(u) && has_index(best, u)
                && !has_index(frontier1, u) implies self.expanded(u, lyr) by {
            if has_index(frontier0, u) {
                let k = choose|k: int| 0 <= k < frontier0.len() && #[trigger] frontier0[k].node_index == u;
                assert(frontier1[k] == frontier0[k]);
            }
        }
    }

    /// Reaching a new node `nb`, a neighbour of the node `c` being expanded,
    /// and offering it to the kept links, keeps the state of the walk.
    proof fn lemma_walk_visit<F: Fn(&V, &V) -> u32>(
        s0: Self,
        s1: Self,
        g0: Self,
        q: V,
        ep: int,
        lyr: int,
        ef: int,
        f: F,
        best0: Seq<Link>,
        frontier0: Seq<Link>,
        best1: Seq<Link>,
        frontier1: Seq<Link>,
        seen0: Set<int>,
        c: int,
        x: Link,
    )
        requires
            s0.walk_inv(g0, q, ep, lyr, ef, f, best0, frontier0, seen0, c),
            0 <= c < s0.size(),
            lyr < s0.levels(c),
            has_index(s0.links(c, lyr), x.node_index as int),
            0 <= x.node_index < s0.size(),
            !s0.marked(x.node_index as int),
            s1.same_graph(&s0),
            s1.epoch == s0.epoch,
            s1.nodes@[x.node_index as int].epoch == s1.epoch,
            forall|i: int| 0 <= i < s0.size() && i != x.node_index ==> s1.nodes@[i] == s0.nodes@[i],
            x.distance == dist_of(f, q, s0.data@[x.node_index as int]),
            offered(best0, frontier0, ef, x, best1, frontier1),
        ensures
            s1.walk_inv(g0, q, ep, lyr, ef, f, best1, frontier1, seen0.insert(x.node_index as int), c),
    {
        let nb = x.node_index as int;
        let seen1 = seen0.insert(nb);
        s1.lemma_same_graph(&s0);
        s0.lemma_same_graph(&g0);
        s1.lemma_same_graph(&g0);
        assert(s1.same_graph(&g0));
        assert forall|v: int| 0 <= v < s1.size() implies #[trigger] s1.marked(v) == (s0.marked(v) || v == nb) by {
            if v != nb {
                assert(s1.nodes@[v] == s0.nodes@[v]);
            }
        }
        assert forall|i: int| 0 <= i < s1.size() implies #[trigger] s1.nodes@[i].epoch <= s1.epoch by {
            if i != nb {
                assert(s1.nodes@[i] == s0.nodes@[i]);
            }
        }
        assert(lyr < s0.levels(nb)) by {
            let j = choose|j: int| 0 <= j < s0.links(c, lyr).len() && #[trigger] s0.links(c, lyr)[j].node_index == nb;
            assert(g0.links(c, lyr)[j] == s0.links(c, lyr)[j]);
        }
        assert(s0.is_target(nb, lyr)) by {
            let j = choose|j: int| 0 <= j < s0.links(c, lyr).len() && #[trigger] s0.links(c, lyr)[j].node_index == nb;
        }
        assert(s1.reached(q, lyr, f, x));
        assert(!has_index(best0, nb)) by {
            if has_index(best0, nb) {
                let k = choose|k: int| 0 <= k < best0.len() && #[trigger] best0[k].node_index == nb;
                assert(s0.reached(q, lyr, f, best0[k]));
            }
        }
        assert(!has_index(frontier0, nb)) by {
            if has_index(frontier0, nb) {
                let k = choose|k: int| 0 <= k < frontier0.len() && #[trigger] frontier0[k].node_index == nb;
                assert(s0.reached(q, lyr, f, frontier0[k]));
            }
        }
        assert forall|k: int| 0 <= k < best1.len() implies {
            &&& s1.reached(q, lyr, f, #[trigger] best1[k])
            &&& (best1[k].node_index == ep || s1.is_target(best1[k].node_index as int, lyr))
        } by {
            if best1[k] != x {
                let k0 = choose|k0: int| 0 <= k0 < best0.len() && best0[k0] == best1[k];
                assert(s0.reached(q, lyr, f, best0[k0]));
            }
        }
        assert forall|k: int| 0 <= k < frontier1.len() implies s1.reached(q, lyr, f, #[trigger] frontier1[k]) by {
            if frontier1[k] != x {
                let k0 = choose|k0: int| 0 <= k0 < frontier0.len() && frontier0[k0] == frontier1[k];
                assert(s0.reached(q, lyr, f, frontier0[k0]));
            }
        }
        assert forall|v: int|
            0 <= v < s1.size() && #[trigger] s1.marked(v) && !has_index(best1, v) implies {
                &&& best1.len() == ef
                &&& best1.last().distance <= dist_of(f, q, s1.data@[v])
            } by {
            if v == nb {
            } else if has_index(best0, v) {
                let k = choose|k: int| 0 <= k < best0.len() && #[trigger] best0[k].node_index == v;
                assert(s0.reached(q, lyr, f, best0[k]));
            } else {
                assert(s0.marked(v));
            }
        }
        assert forall|u: int|
            0 <= u < s1.size() && u != c && #[trigger] s1.marked(u) && has_index(best1, u)
                && !has_index(frontier1, u) implies s1.expanded(u, lyr) by {
            assert(u != nb);
            assert(s0.marked(u));
            assert(has_index(best0, u));
            assert(!has_index(frontier0, u));
            assert(s0.expanded(u, lyr));
            assert forall|j: int| 0 <= j < s1.links(u, lyr).len() implies s1.marked(
                #[trigger] s1.links(u, lyr)[j].node_index as int,
            ) by {
                assert(s1.links(u, lyr)[j] == s0.links(u, lyr)[j]);
                assert(g0.links(u, lyr)[j] == s0.links(u, lyr)[j]);
            }
        }
        assert forall|v: int| #[trigger] seen1.contains(v) <==> (0 <= v < s1.size() && s1.marked(v)) by {
            if 0 <= v < s1.size() {
                assert(s1.marked(v) == (s0.marked(v) || v == nb));
            }
        }
        assert(!seen0.contains(nb));
        vstd::set_lib::lemma_int_range(0, s1.size() as int);
        vstd::set_lib::lemma_len_subset(seen1, vstd::set_lib::set_int_range(0, s1.size() as int));
    }


    /// When every kept node has been expanded, the kept links are the result
    /// of the walk.
    proof fn lemma_walk_result<F: Fn(&V, &V) -> u32>(
        &self,
        g0: Self,
        q: V,
        ep: int,
        lyr: int,
        ef: int,
        f: F,
        best: Seq<Link>,
        frontier: Seq<Link>,
        seen: Set<int>,
    )
        requires
            self.walk_inv(g0, q, ep, lyr, ef, f, best, frontier, seen, -1),
            forall|u: int| 0 <= u < self.size() && #[trigger] has_index(best, u) ==> self.expanded(u, lyr),
        ensures
            self.layer_result(q, ep, lyr, ef, f, best),
            self.wf_core(),
    {
        g0.lemma_wf_same_graph(self);
        self.lemma_same_graph(&g0);
        assert forall|i: int, j: int|
            0 <= i < best.len() && 0 <= j < best.len() && i != j implies #[trigger] best[i].node_index
            != #[trigger] best[j].node_index by {
            assert(self.reached(q, lyr, f, best[i]));
            assert(self.reached(q, lyr, f, best[j]));
        }
        assert forall|k: int| 0 <= k < best.len() implies #[trigger] best[k].distance <= best.last().distance by {
            if k < best.len() - 1 {
                assert(link_lt(best[k], best[best.len() - 1]));
            }
        }
        assert forall|v: int| 0 <= v < self.size() && #[trigger] self.marked(v) implies self.covered(q, lyr, ef, f, best, v) by {
            if !has_index(best, v) {
                assert forall|k: int| 0 <= k < best.len() implies #[trigger] best[k].distance <= dist_of(f, q, self.data@[v]) by {
                    assert(best[k].distance <= best.last().distance);
                }
            }
        }
        assert(self.covered(q, lyr, ef, f, best, ep));
        assert forall|k: int, j: int|
            0 <= k < best.len() && 0 <= j < self.links(best[k].node_index as int, lyr).len()
                implies self.covered(q, lyr, ef, f, best,
                #[trigger] self.links(best[k].node_index as int, lyr)[j].node_index as int) by {
            let u = best[k].node_index as int;
            assert(self.reached(q, lyr, f, best[k]));
            assert(has_index(best, u));
            assert(self.expanded(u, lyr));
            let v = self.links(u, lyr)[j].node_index as int;
            assert(self.marked(v));
            assert(g0.links(u, lyr)[j] == self.links(u, lyr)[j]);
            assert(0 <= v < self.size());
        }
        assert forall|k: int| 0 <= k < best.len() implies {
            let t = #[trigger] best[k].node_index;
            &&& t < self.size()
            &&& lyr < self.levels(t as int)
            &&& best[k].distance == dist_of(f, q, self.data@[t as int])
            &&& (t == ep || self.is_target(t as int, lyr))
        } by {
            assert(self.reached(q, lyr, f, best[k]));
        }
    }


    /// `t` is one of `cands`, or, when `extend`, a neighbour on layer `lyr`
    /// of one of them.
    pub closed spec fn from_pool(&self, cands: Seq<Link>, lyr: int, extend: bool, t: int) -> bool {
        has_index(cands, t) || (extend && exists|c: int, j: int|
            0 <= c < cands.len() && cands[c].node_index < self.size()
                && 0 <= j < self.links(cands[c].node_index as int, lyr).len()
                && #[trigger] self.links(cands[c].node_index as int, lyr)[j].node_index == t)
    }

    /// The nodes of the pool drawn from the first `i` of `cands`: in order,
    /// each candidate not met before and, when `extend`, its neighbours on
    /// layer `lyr`; a candidate met before adds nothing, not even its
    /// neighbours.
    pub closed spec fn gathered(&self, cands: Seq<Link>, lyr: int, extend: bool, i: int) -> Set<int>
        decreases i,
    {
        if i <= 0 {
            Set::empty()
        } else {
            let s = self.gathered(cands, lyr, extend, i - 1);
            let c = cands[i - 1].node_index as int;
            if s.contains(c) {
                s
            } else if extend {
                s.insert(c).union(targets(self.links(c, lyr)))
            } else {
                s.insert(c)
            }
        }
    }

    /// The pool depends only on the candidates' neighbour lists.
    proof fn lemma_gathered_same(&self, o: &Self, cands: Seq<Link>, lyr: int, extend: bool, i: int)
        requires
            i <= cands.len(),
            forall|k: int| 0 <= k < cands.len() ==> self.links((#[trigger] cands[k]).node_index as int, lyr)
                == o.links(cands[k].node_index as int, lyr),
        ensures
            self.gathered(cands, lyr, extend, i) == o.gathered(cands, lyr, extend, i),
        decreases i,
    {
        if i > 0 {
            self.lemma_gathered_same(o, cands, lyr, extend, i - 1);
            assert(self.links(cands[i - 1].node_index as int, lyr) == o.links(cands[i - 1].node_index as int, lyr));
        }
    }

    /// Every gathered node is drawn from the pool of `cands`.
    proof fn lemma_gathered_from_pool(&self, cands: Seq<Link>, lyr: int, extend: bool, i: int, v: int)
        requires
            i <= cands.len(),
            forall|k: int| 0 <= k < cands.len() ==> (#[trigger] cands[k]).node_index < self.size(),
            self.gathered(cands, lyr, extend, i).contains(v),
        ensures
            self.from_pool(cands, lyr, extend, v),
        decreases i,
    {
        let s = self.gathered(cands, lyr, extend, i - 1);
        let c = cands[i - 1].node_index as int;
        if s.contains(v) {
            self.lemma_gathered_from_pool(cands, lyr, extend, i - 1, v);
        } else if v == c {
            assert(cands[i - 1].node_index == v);
        } else {
            assert(extend && !s.contains(c) && has_index(self.links(c, lyr), v));
            let j = choose|j: int| 0 <= j < self.links(c, lyr).len() && #[trigger] self.links(c, lyr)[j].node_index == v;
            assert(cands[i - 1].node_index < self.size());
            assert(self.links(cands[i - 1].node_index as int, lyr)[j].node_index == v);
        }
    }

    /// `x` is a link from `q` to a node of layer `lyr` drawn from the pool of
    /// `cands`.
    closed spec fn pool_link<F: Fn(&V, &V) -> u32>(
        &self,
        q: V,
        lyr: int,
        f: F,
        cands: Seq<Link>,
        extend: bool,
        x: Link,
    ) -> bool {
        &&& x.node_index < self.size()
        &&& lyr < self.levels(x.node_index as int)
        &&& x.distance == dist_of(f, q, self.data@[x.node_index as int])
        &&& self.from_pool(cands, lyr, extend, x.node_index as int)
    }

    /// `pool` is the pool that neighbour selection for `q` on layer `lyr`
    /// draws from `cands`: the gathered nodes, each once, with its distance
    /// from `q`, in decreasing order.
    pub closed spec fn pool_of<F: Fn(&V, &V) -> u32>(
        &self,
        q: V,
        lyr: int,
        cands: Seq<Link>,
        extend: bool,
        f: F,
        pool: Seq<Link>,
    ) -> bool {
        &&& descending(pool)
        &&& forall|k: int| 0 <= k < pool.len() ==> {
                let t = #[trigger] pool[k].node_index;
                &&& t < self.size()
                &&& pool[k].distance == dist_of(f, q, self.data@[t as int])
            }
        &&& forall|v: int| #[trigger] has_index(pool, v)
                <==> self.gathered(cands, lyr, extend, cands.len() as int).contains(v)
    }

    /// What neighbour selection for `q` on layer `lyr` returns: the whole
    /// pool when it fits in a neighbour list, else what the diversity
    /// heuristic chooses from it. So: at most `max_conn(lyr)` links to
    /// distinct nodes of the layer drawn from the pool of `cands`, each with
    /// its distance from `q`; at least one when there is a candidate; and,
    /// when pruned links are kept, all candidates or exactly `max_conn(lyr)`
    /// links.
    pub closed spec fn selection<F: Fn(&V, &V) -> u32>(
        &self,
        q: V,
        lyr: int,
        cands: Seq<Link>,
        extend: bool,
        keep_pruned: bool,
        f: F,
        r: Seq<Link>,
    ) -> bool {
        &&& r.len() <= self.max_conn(lyr)
        &&& distinct_targets(r)
        &&& forall|k: int| 0 <= k < r.len() ==> {
                let t = #[trigger] r[k].node_index;
                &&& t < self.size()
                &&& lyr < self.levels(t as int)
                &&& r[k].distance == dist_of(f, q, self.data@[t as int])
                &&& self.from_pool(cands, lyr, extend, t as int)
            }
        &&& cands.len() > 0 ==> r.len() > 0
        &&& keep_pruned ==> (r.len() == self.max_conn(lyr) || forall|c: int|
            0 <= c < cands.len() ==> has_index(r, #[trigger] cands[c].node_index as int))
        &&& exists|pool: Seq<Link>| #[trigger] self.pool_of(q, lyr, cands, extend, f, pool)
            && if pool.len() <= self.max_conn(lyr) {
                r == pool
            } else {
                exists|s: int| self.heuristic_split(f, pool, r, s, keep_pruned, self.max_conn(lyr) as int)
            }
    }

    /// Gathers into a pool the candidates and, when `extend`, their neighbours
    /// on layer `lyr`, each once, with its distance from `qv`.
    fn gather_pool<F: Fn(&V, &V) -> u32>(
        &mut self,
        qv: &V,
        lyr: usize,
        candidates: &Vec<Link>,
        extend: bool,
        dist: &F,
    ) -> (pool: Vec<Link>)
        requires
            old(self).wf_core(),
            is_distance(*dist),
            forall|k: int| 0 <= k < candidates@.len() ==> {
                let t = #[trigger] candidates@[k].node_index;
                t < old(self).size() && lyr < old(self).levels(t as int)
            },
        ensures
            final(self).wf_core(),
            final(self).same_graph(old(self)),
            descending(pool@),
            forall|k: int| 0 <= k < pool@.len() ==> old(self).pool_link(*qv, lyr as int, *dist, candidates@, extend, #[trigger] pool@[k]),
            forall|c: int| 0 <= c < candidates@.len() ==> has_index(pool@, #[trigger] candidates@[c].node_index as int),
            forall|v: int| #[trigger] has_index(pool@, v)
                <==> old(self).gathered(candidates@, lyr as int, extend, candidates@.len() as int).contains(v),
    {
        self.begin_epoch();
        let ghost g0 = *self;
        proof {
            g0.lemma_same_graph(old(self));
            old(self).lemma_same_graph(&g0);
        }
        let e = self.epoch;
        let mut pq: Vec<Link> = Vec::new();
        let ncand = candidates.len();
        let mut i: usize = 0;
        while i < ncand
            invariant
                self.same_graph(&g0),
                g0.wf_core(),
                g0.same_graph(old(self)),
                old(self).same_graph(&g0),
                self.epoch == e,
                forall|v: int| 0 <= v < self.size() ==> #[trigger] self.nodes@[v].epoch <= e,
                is_distance(*dist),
                ncand == candidates@.len(),
                0 <= i <= ncand,
                forall|k: int| 0 <= k < candidates@.len() ==> {
                    let t = #[trigger] candidates@[k].node_index;
                    t < g0.size() && lyr < g0.levels(t as int)
                },
                descending(pq@),
                forall|k: int| 0 <= k < pq@.len() ==> g0.pool_link(*qv, lyr as int, *dist, candidates@, extend, #[trigger] pq@[k]),
                forall|k: int| 0 <= k < pq@.len() ==> self.marked(#[trigger] pq@[k].node_index as int),
                forall|v: int| 0 <= v < self.size() && #[trigger] self.marked(v) ==> has_index(pq@, v),
                forall|c: int| 0 <= c < i ==> has_index(pq@, #[trigger] candidates@[c].node_index as int),
                forall|v: int| #[trigger] has_index(pq@, v) <==> g0.gathered(candidates@, lyr as int, extend, i as int).contains(v),
            decreases ncand - i,
        {
            let ghost gi = g0.gathered(candidates@, lyr as int, extend, i as int);
            let idx = candidates[i].node_index;
            proof {
                assert(has_index(candidates@, idx as int)) by {
                    assert(candidates@[i as int].node_index == idx);
                }
                assert(g0.from_pool(candidates@, lyr as int, extend, idx as int));
            }
            if self.nodes[idx].epoch != e {
                proof {
                    assert(!gi.contains(idx as int)) by {
                        if gi.contains(idx as int) {
                            assert(has_index(pq@, idx as int));
                            let k = choose|k: int| 0 <= k < pq@.len() && #[trigger] pq@[k].node_index == idx as int;
                            assert(self.marked(pq@[k].node_index as int));
                        }
                    }
                }
                let d = distance(dist, qv, &self.data[idx]);
                self.push_to_pool(&mut pq, Ghost(g0), qv, lyr, Ghost(candidates@), extend, dist, Link { node_index: idx, distance: d });
                if extend {
                    let nlen = self.nodes[idx].layers[lyr].len();
                    let mut j: usize = 0;
                    while j < nlen
                        invariant
                            self.same_graph(&g0),
                            g0.wf_core(),
                            self.epoch == e,
                            forall|v: int| 0 <= v < self.size() ==> #[trigger] self.nodes@[v].epoch <= e,
                            is_distance(*dist),
                            extend,
                            0 <= i < ncand == candidates@.len(),
                            idx == candidates@[i as int].node_index,
                            idx < g0.size(),
                            lyr < g0.levels(idx as int),
                            nlen == g0.links(idx as int, lyr as int).len(),
                            0 <= j <= nlen,
                            descending(pq@),
                            forall|k: int| 0 <= k < pq@.len() ==> g0.pool_link(*qv, lyr as int, *dist, candidates@, extend, #[trigger] pq@[k]),
                            forall|k: int| 0 <= k < pq@.len() ==> self.marked(#[trigger] pq@[k].node_index as int),
                            forall|v: int| 0 <= v < self.size() && #[trigger] self.marked(v) ==> has_index(pq@, v),
                            forall|c: int| 0 <= c <= i ==> has_index(pq@, #[trigger] candidates@[c].node_index as int),
                            gi == g0.gathered(candidates@, lyr as int, extend, i as int),
                            forall|v: int| #[trigger] has_index(pq@, v) <==> (gi.contains(v) || v == idx
                                || has_index(g0.links(idx as int, lyr as int).subrange(0, j as int), v)),
                        decreases nlen - j,
                    {
                        let nb = self.nodes[idx].layers[lyr][j].node_index;
                        proof {
                            self.lemma_same_graph(&g0);
                            assert(g0.links(idx as int, lyr as int)[j as int].node_index == nb);
                            assert(g0.from_pool(candidates@, lyr as int, extend, nb as int));
                            assert(nb < g0.size() && lyr < g0.levels(nb as int));
                        }
                        let ghost p0 = pq@;
                        if self.nodes[nb].epoch != e {
                            let d = distance(dist, qv, &self.data[nb]);
                            self.push_to_pool(&mut pq, Ghost(g0), qv, lyr, Ghost(candidates@), extend, dist, Link { node_index: nb, distance: d });
                        } else {
                            proof {
                                assert(self.marked(nb as int));
                            }
                        }
                        proof {
                            let ls = g0.links(idx as int, lyr as int);
                            let s0 = ls.subrange(0, j as int);
                            let s1 = ls.subrange(0, j as int + 1);
                            assert forall|v: int| has_index(s1, v) <==> (has_index(s0, v) || v == nb) by {
                                if has_index(s1, v) {
                                    let k = choose|k: int| 0 <= k < s1.len() && #[trigger] s1[k].node_index == v;
                                    if k < j {
                                        assert(s0[k] == s1[k]);
                                    }
                                }
                                if has_index(s0, v) {
                                    let k = choose|k: int| 0 <= k < s0.len() && #[trigger] s0[k].node_index == v;
                                    assert(s1[k] == s0[k]);
                                }
                                if v == nb {
                                    assert(s1[j as int].node_index == nb);
                                }
                            }
                            assert forall|v: int| #[trigger] has_index(pq@, v) <==> (gi.contains(v) || v == idx
                                || has_index(s1, v)) by {
                                assert(has_index(pq@, v) <==> (has_index(p0, v) || v == nb));
                            }
                        }
                        j += 1;
                    }
                    proof {
                        let ls = g0.links(idx as int, lyr as int);
                        assert(ls.subrange(0, nlen as int) =~= ls);
                        assert forall|v: int| #[trigger] has_index(pq@, v)
                            <==> g0.gathered(candidates@, lyr as int, extend, i as int + 1).contains(v) by {
                            assert(targets(ls).contains(v) == has_index(ls, v));
                        }
                    }
                }
            } else {
                proof {
                    assert(self.marked(idx as int));
                    assert(gi.contains(idx as int));
                }
            }
            i += 1;
        }
        proof {
            g0.lemma_wf_same_graph(self);
            self.lemma_same_graph(&g0);
            g0.lemma_same_graph(old(self));
            assert forall|k: int| 0 <= k < candidates@.len() implies g0.links((#[trigger] candidates@[k]).node_index as int, lyr as int)
                == old(self).links(candidates@[k].node_index as int, lyr as int) by {
                assert(candidates@[k].node_index < g0.size());
            }
            g0.lemma_gathered_same(old(self), candidates@, lyr as int, extend, ncand as int);
            assert forall|k: int| 0 <= k < pq@.len() implies old(self).pool_link(*qv, lyr as int, *dist, candidates@, extend, #[trigger] pq@[k]) by {
                assert(g0.pool_link(*qv, lyr as int, *dist, candidates@, extend, pq@[k]));
                g0.lemma_same_graph(old(self));
                let t = pq@[k].node_index as int;
                if !has_index(candidates@, t) {
                    let (c, j) = choose|c: int, j: int|
                        0 <= c < candidates@.len() && candidates@[c].node_index < g0.size()
                            && 0 <= j < g0.links(candidates@[c].node_index as int, lyr as int).len()
                            && #[trigger] g0.links(candidates@[c].node_index as int, lyr as int)[j].node_index == t;
                    assert(old(self).links(candidates@[c].node_index as int, lyr as int)[j].node_index == t);
                }
            }
        }
        pq
    }

    /// Marks the node of `x` and adds `x` to the pool.
    fn push_to_pool<F: Fn(&V, &V) -> u32>(
        &mut self,
        pq: &mut Vec<Link>,
        Ghost(g0): Ghost<Self>,
        qv: &V,
        lyr: usize,
        Ghost(cands): Ghost<Seq<Link>>,
        extend: bool,
        dist: &F,
        x: Link,
    )
        requires
            old(self).same_graph(&g0),
            g0.wf_core(),
            forall|v: int| 0 <= v < old(self).size() ==> #[trigger] old(self).nodes@[v].epoch <= old(self).epoch,
            x.node_index < old(self).size(),
            !old(self).marked(x.node_index as int),
            g0.pool_link(*qv, lyr as int, *dist, cands, extend, x),
            descending(old(pq)@),
            forall|k: int| 0 <= k < old(pq)@.len() ==> g0.pool_link(*qv, lyr as int, *dist, cands, extend, #[trigger] old(pq)@[k]),
            forall|k: int| 0 <= k < old(pq)@.len() ==> old(self).marked(#[trigger] old(pq)@[k].node_index as int),
            forall|v: int| 0 <= v < old(self).size() && #[trigger] old(self).marked(v) ==> has_index(old(pq)@, v),
        ensures
            final(self).same_graph(&g0),
            final(self).epoch == old(self).epoch,
            forall|v: int| 0 <= v < final(self).size() ==> #[trigger] final(self).nodes@[v].epoch <= final(self).epoch,
            descending(final(pq)@),
            forall|k: int| 0 <= k < final(pq)@.len() ==> g0.pool_link(*qv, lyr as int, *dist, cands, extend, #[trigger] final(pq)@[k]),
            forall|k: int| 0 <= k < final(pq)@.len() ==> final(self).marked(#[trigger] final(pq)@[k].node_index as int),
            forall|v: int| 0 <= v < final(self).size() && #[trigger] final(self).marked(v) ==> has_index(final(pq)@, v),
            forall|u: int| #[trigger] has_index(final(pq)@, u) <==> (has_index(old(pq)@, u) || u == x.node_index),
    {
        let ghost s0 = *self;
        let e = self.epoch;
        self.nodes[x.node_index].epoch = e;
        proof {
            assert(!has_index(pq@, x.node_index as int)) by {
                if has_index(pq@, x.node_index as int) {
                    let k = choose|k: int| 0 <= k < pq@.len() && #[trigger] pq@[k].node_index == x.node_index;
                    assert(s0.marked(pq@[k].node_index as int));
                }
            }
        }
        let ghost p0 = pq@;
        insert_descending(pq, x);
        proof {
            s0.lemma_same_graph(&g0);
            assert forall|v: int| 0 <= v < self.size() implies #[trigger] self.marked(v) == (s0.marked(v) || v == x.node_index) by {
                if v != x.node_index {
                    assert(self.nodes@[v] == s0.nodes@[v]);
                }
            }
            assert forall|v: int| 0 <= v < self.size() implies #[trigger] self.nodes@[v].epoch <= self.epoch by {
                if v != x.node_index {
                    assert(self.nodes@[v] == s0.nodes@[v]);
                }
            }
            assert forall|k: int| 0 <= k < pq@.len() implies {
                &&& g0.pool_link(*qv, lyr as int, *dist, cands, extend, #[trigger] pq@[k])
                &&& self.marked(pq@[k].node_index as int)
            } by {
                if pq@[k] != x {
                    let k0 = choose|k0: int| 0 <= k0 < p0.len() && p0[k0] == pq@[k];
                    assert(s0.marked(p0[k0].node_index as int));
                }
            }
        }
    }



    /// Some link of `kept` comes before `x` and is no further from `x` than
    /// `x` is from the query: `x` is not diverse with respect to `kept`.
    pub closed spec fn rejected<F: Fn(&V, &V) -> u32>(&self, f: F, kept: Seq<Link>, x: Link) -> bool {
        exists|b: int|
            0 <= b < kept.len() && link_lt(#[trigger] kept[b], x) && x.distance >= dist_of(
                f,
                self.data@[x.node_index as int],
                self.data@[kept[b].node_index as int],
            )
    }

    /// `kept` is in increasing order, and each of its links is closer to the
    /// query than to any link before it.
    pub closed spec fn diverse<F: Fn(&V, &V) -> u32>(&self, f: F, kept: Seq<Link>) -> bool {
        &&& ascending(kept)
        &&& forall|a: int, b: int|
            0 <= b < a < kept.len() ==> (#[trigger] kept[a]).distance < dist_of(
                f,
                self.data@[kept[a].node_index as int],
                self.data@[(#[trigger] kept[b]).node_index as int],
            )
    }

    /// `r` is what the diversity heuristic chooses from `pool` with room for
    /// `maxc` links: its first `s` links are the diverse ones, taken closest
    /// first; every link of the pool closer than one of them and left out
    /// was rejected by an earlier one; fewer than `maxc` are kept only when
    /// every other link of the pool was rejected; the rest of `r` (only when
    /// pruned links are kept, and then up to `maxc` links in all) are the
    /// closest rejected links, closest first.
    pub closed spec fn heuristic_split<F: Fn(&V, &V) -> u32>(
        &self,
        f: F,
        pool: Seq<Link>,
        r: Seq<Link>,
        s: int,
        keep_pruned: bool,
        maxc: int,
    ) -> bool {
        let kept = r.subrange(0, s);
        &&& 0 <= s <= r.len() <= maxc
        &&& distinct_targets(r)
        &&& forall|k: int| 0 <= k < r.len() ==> pool.contains(#[trigger] r[k])
        &&& self.diverse(f, kept)
        &&& ascending(r.subrange(s, r.len() as int))
        &&& forall|k: int| s <= k < r.len() ==> self.rejected(f, kept, #[trigger] r[k])
        &&& !keep_pruned ==> s == r.len()
        &&& keep_pruned ==> r.len() == maxc
        &&& forall|k: int, a: int|
            0 <= k < pool.len() && 0 <= a < s && link_lt(#[trigger] pool[k], #[trigger] kept[a])
                && !has_index(kept, pool[k].node_index as int) ==> self.rejected(f, kept, pool[k])
        &&& s == maxc || forall|k: int|
            0 <= k < pool.len() && !has_index(kept, (#[trigger] pool[k]).node_index as int)
                ==> self.rejected(f, kept, pool[k])
        &&& forall|k: int, j: int|
            0 <= k < pool.len() && s <= j < r.len() && !has_index(r, (#[trigger] pool[k]).node_index as int)
                ==> link_lt(#[trigger] r[j], pool[k])
    }

    /// One side of the agreement of two heuristic choices on a pool: when
    /// they keep the same links below `pool[i]` and the first keeps
    /// `pool[i]`, so does the second.
    proof fn lemma_kept_step<F: Fn(&V, &V) -> u32>(
        &self,
        f: F,
        pool: Seq<Link>,
        r1: Seq<Link>,
        s1: int,
        r2: Seq<Link>,
        s2: int,
        keep: bool,
        maxc: int,
        i: int,
    )
        requires
            descending(pool),
            distinct_targets(pool),
            self.heuristic_split(f, pool, r1, s1, keep, maxc),
            self.heuristic_split(f, pool, r2, s2, keep, maxc),
            0 <= i < pool.len(),
            forall|j: int| i < j < pool.len() ==> (r1.subrange(0, s1).contains(#[trigger] pool[j])
                <==> r2.subrange(0, s2).contains(pool[j])),
            r1.subrange(0, s1).contains(pool[i]),
        ensures
            r2.subrange(0, s2).contains(pool[i]),
    {
        let k1 = r1.subrange(0, s1);
        let k2 = r2.subrange(0, s2);
        let x = pool[i];
        // A link of the pool below `x` sits after it.
        assert forall|y: Link| pool.contains(y) && link_lt(y, x) implies exists|j: int| i < j < pool.len() && pool[j] == y by {
            let j = choose|j: int| 0 <= j < pool.len() && pool[j] == y;
            if j < i {
                assert(link_lt(pool[i], pool[j]));
            }
            assert(j != i);
        }
        assert forall|t: int| 0 <= t < k1.len() implies pool.contains(#[trigger] k1[t]) by {
            assert(k1[t] == r1[t]);
        }
        assert forall|t: int| 0 <= t < k2.len() implies pool.contains(#[trigger] k2[t]) by {
            assert(k2[t] == r2[t]);
        }
        let a = choose|a: int| 0 <= a < k1.len() && k1[a] == x;
        // `x` is not rejected by the first choice, so not by the second.
        assert(!self.rejected(f, k2, x)) by {
            if self.rejected(f, k2, x) {
                let b = choose|b: int| 0 <= b < k2.len() && link_lt(#[trigger] k2[b], x) && x.distance >= dist_of(
                    f,
                    self.data@[x.node_index as int],
                    self.data@[k2[b].node_index as int],
                );
                let y = k2[b];
                assert(pool.contains(y));
                let j = choose|j: int| i < j < pool.len() && pool[j] == y;
                assert(k1.contains(pool[j]));
                let c = choose|c: int| 0 <= c < k1.len() && k1[c] == y;
                if c >= a {
                    if c > a {
                        assert(link_lt(k1[a], k1[c]));
                    }
                }
                assert(c < a);
                assert(self.diverse(f, k1));
                assert(k1[a].distance < dist_of(f, self.data@[k1[a].node_index as int], self.data@[k1[c].node_index as int]));
            }
        }
        if !k2.contains(x) {
            assert(!has_index(k2, x.node_index as int)) by {
                if has_index(k2, x.node_index as int) {
                    let m = choose|m: int| 0 <= m < k2.len() && #[trigger] k2[m].node_index == x.node_index;
                    let jm = choose|jm: int| 0 <= jm < pool.len() && pool[jm] == k2[m];
                    assert(pool[jm].node_index == pool[i].node_index);
                }
            }
            if exists|b: int| 0 <= b < k2.len() && link_lt(x, #[trigger] k2[b]) {
                let b = choose|b: int| 0 <= b < k2.len() && link_lt(x, #[trigger] k2[b]);
                assert(link_lt(pool[i], k2[b]));
            } else {
                assert(s2 == maxc) by {
                    if s2 != maxc {
                        assert(!has_index(k2, (pool[i]).node_index as int));
                    }
                }
                // Every link the second keeps is below `x`, so kept by the
                // first before `x`: the first keeps `maxc` links and `x`.
                assert forall|t: int| 0 <= t < k2.len() implies link_lt(#[trigger] k2[t], x) by {
                    if k2[t] != x {
                        if !link_lt(k2[t], x) {
                            assert(link_lt(x, k2[t]));
                        }
                    }
                }
                let pre = k1.subrange(0, a);
                assert(pre.to_set() =~= k2.to_set()) by {
                    assert forall|y: Link| pre.contains(y) implies k2.contains(y) by {
                        let t = choose|t: int| 0 <= t < pre.len() && pre[t] == y;
                        assert(k1[t] == y);
                        assert(link_lt(k1[t], k1[a]));
                        assert(pool.contains(y));
                        let j = choose|j: int| i < j < pool.len() && pool[j] == y;
                    }
                    assert forall|y: Link| k2.contains(y) implies pre.contains(y) by {
                        let t = choose|t: int| 0 <= t < k2.len() && k2[t] == y;
                        assert(link_lt(y, x));
                        let j = choose|j: int| i < j < pool.len() && pool[j] == y;
                        assert(k1.contains(pool[j]));
                        let c = choose|c: int| 0 <= c < k1.len() && k1[c] == y;
                        if c >= a {
                            if c > a {
                                assert(link_lt(k1[a], k1[c]));
                            }
                        }
                        assert(pre[c] == y);
                    }
                }
                assert(ascending(pre)) by {
                    assert forall|u: int, v: int| 0 <= u < v < pre.len() implies link_lt(#[trigger] pre[u], #[trigger] pre[v]) by {
                        assert(pre[u] == k1[u] && pre[v] == k1[v]);
                    }
                }
                lemma_ascending_unique(pre, k2);
                assert(a == s2);
            }
        }
    }

    /// Two heuristic choices from the same pool, with the same room and the
    /// same treatment of pruned links, are the same.
    proof fn lemma_split_unique<F: Fn(&V, &V) -> u32>(
        &self,
        f: F,
        pool: Seq<Link>,
        r1: Seq<Link>,
        s1: int,
        r2: Seq<Link>,
        s2: int,
        keep: bool,
        maxc: int,
    )
        requires
            descending(pool),
            distinct_targets(pool),
            self.heuristic_split(f, pool, r1, s1, keep, maxc),
            self.heuristic_split(f, pool, r2, s2, keep, maxc),
        ensures
            r1 == r2,
    {
        let k1 = r1.subrange(0, s1);
        let k2 = r2.subrange(0, s2);
        self.lemma_kept_agree(f, pool, r1, s1, r2, s2, keep, maxc, 0);
        assert(k1.to_set() =~= k2.to_set()) by {
            assert forall|y: Link| k1.contains(y) implies k2.contains(y) by {
                let t = choose|t: int| 0 <= t < k1.len() && k1[t] == y;
                assert(k1[t] == r1[t]);
                assert(pool.contains(y));
                let j = choose|j: int| 0 <= j < pool.len() && pool[j] == y;
            }
            assert forall|y: Link| k2.contains(y) implies k1.contains(y) by {
                let t = choose|t: int| 0 <= t < k2.len() && k2[t] == y;
                assert(k2[t] == r2[t]);
                assert(pool.contains(y));
                let j = choose|j: int| 0 <= j < pool.len() && pool[j] == y;
            }
        }
        assert(self.diverse(f, k1) && self.diverse(f, k2));
        lemma_ascending_unique(k1, k2);
        assert(0 <= s1 <= r1.len() && 0 <= s2 <= r2.len());
        assert(k1.len() == s1 && k2.len() == s2);
        assert(s1 == s2);
        let s = s1;
        if !keep {
            assert(r1 =~= k1);
            assert(r2 =~= k2);
        } else {
            let t1 = r1.subrange(s, r1.len() as int);
            let t2 = r2.subrange(s, r2.len() as int);
            assert(r1.len() == maxc && r2.len() == maxc);
            self.lemma_tail_agree(f, pool, r1, r2, s, keep, maxc, t1.len() as int);
            assert(r1 =~= r2) by {
                assert forall|u: int| 0 <= u < r1.len() implies r1[u] == r2[u] by {
                    if u < s {
                        assert(r1[u] == k1[u] && r2[u] == k2[u]);
                    } else {
                        assert(r1[s + (u - s)] == r2[s + (u - s)]);
                    }
                }
            }
        }
    }

    proof fn lemma_kept_agree<F: Fn(&V, &V) -> u32>(
        &self,
        f: F,
        pool: Seq<Link>,
        r1: Seq<Link>,
        s1: int,
        r2: Seq<Link>,
        s2: int,
        keep: bool,
        maxc: int,
        i: int,
    )
        requires
            descending(pool),
            distinct_targets(pool),
            self.heuristic_split(f, pool, r1, s1, keep, maxc),
            self.heuristic_split(f, pool, r2, s2, keep, maxc),
            0 <= i <= pool.len(),
        ensures
            forall|j: int| i <= j < pool.len() ==> (r1.subrange(0, s1).contains(#[trigger] pool[j])
                <==> r2.subrange(0, s2).contains(pool[j])),
        decreases pool.len() - i,
    {
        if i < pool.len() {
            self.lemma_kept_agree(f, pool, r1, s1, r2, s2, keep, maxc, i + 1);
            if r1.subrange(0, s1).contains(pool[i]) {
                self.lemma_kept_step(f, pool, r1, s1, r2, s2, keep, maxc, i);
            }
            if r2.subrange(0, s2).contains(pool[i]) {
                self.lemma_kept_step(f, pool, r2, s2, r1, s1, keep, maxc, i);
            }
        }
    }

    proof fn lemma_tail_agree<F: Fn(&V, &V) -> u32>(
        &self,
        f: F,
        pool: Seq<Link>,
        r1: Seq<Link>,
        r2: Seq<Link>,
        s: int,
        keep: bool,
        maxc: int,
        t: int,
    )
        requires
            descending(pool),
            distinct_targets(pool),
            self.heuristic_split(f, pool, r1, s, keep, maxc),
            self.heuristic_split(f, pool, r2, s, keep, maxc),
            r1.subrange(0, s) == r2.subrange(0, s),
            keep,
            0 <= t <= maxc - s,
        ensures
            forall|u: int| 0 <= u < t ==> #[trigger] r1[s + u] == r2[s + u],
        decreases t,
    {
        if t > 0 {
            self.lemma_tail_agree(f, pool, r1, r2, s, keep, maxc, t - 1);
            if r1[s + (t - 1)] != r2[s + (t - 1)] {
                self.lemma_tail_step(f, pool, r1, r2, s, keep, maxc, t - 1);
                assert forall|u: int| 0 <= u < t - 1 implies #[trigger] r2[s + u] == r1[s + u] by {}
                self.lemma_tail_step(f, pool, r2, r1, s, keep, maxc, t - 1);
            }
        }
    }

    /// When two heuristic choices keep the same links and agree on their
    /// first `t` filling links, the `t`-th filling link of the first is not
    /// below that of the second.
    proof fn lemma_tail_step<F: Fn(&V, &V) -> u32>(
        &self,
        f: F,
        pool: Seq<Link>,
        r1: Seq<Link>,
        r2: Seq<Link>,
        s: int,
        keep: bool,
        maxc: int,
        t: int,
    )
        requires
            descending(pool),
            distinct_targets(pool),
            self.heuristic_split(f, pool, r1, s, keep, maxc),
            self.heuristic_split(f, pool, r2, s, keep, maxc),
            r1.subrange(0, s) == r2.subrange(0, s),
            keep,
            0 <= t < maxc - s,
            forall|u: int| 0 <= u < t ==> #[trigger] r1[s + u] == r2[s + u],
        ensures
            !link_lt(r1[s + t], r2[s + t]),
    {
        let x = r1[s + t];
        assert(r1.len() == maxc && r2.len() == maxc);
        assert(pool.contains(x));
        let k = choose|k: int| 0 <= k < pool.len() && pool[k] == x;
        if link_lt(x, r2[s + t]) {
            if has_index(r2, x.node_index as int) {
                let p = choose|p: int| 0 <= p < r2.len() && #[trigger] r2[p].node_index == x.node_index;
                assert(pool.contains(r2[p]));
                let kp = choose|kp: int| 0 <= kp < pool.len() && pool[kp] == r2[p];
                assert(pool[kp].node_index == pool[k].node_index);
                assert(r2[p] == x);
                if p < s {
                    assert(r2.subrange(0, s)[p] == r2[p]);
                    assert(r1.subrange(0, s)[p] == r1[p]);
                    assert(r2.subrange(0, s)[p] == r1.subrange(0, s)[p]);
                    assert(r1[p] == x);
                    assert(r1[p].node_index == r1[s + t].node_index);
                } else {
                    let tl2 = r2.subrange(s, r2.len() as int);
                    let tl1 = r1.subrange(s, r1.len() as int);
                    if p - s >= t {
                        if p - s > t {
                            assert(link_lt(tl2[t], tl2[p - s]));
                        }
                    }
                    assert(p - s < t);
                    assert(r1[s + (p - s)] == r2[s + (p - s)]);
                    assert(tl1[p - s] == x && tl1[t] == x);
                    assert(link_lt(tl1[p - s], tl1[t]));
                }
            } else {
                let tl2 = r2.subrange(s, r2.len() as int);
                assert(tl2[t] == r2[s + t]);
                assert(link_lt(r2[s + t], pool[k]));
            }
        }
    }

    /// `self` and `o` agree on what neighbour selection on layer `l` reads:
    /// the nodes, their vectors and layers, the bounds, and the lists of that
    /// layer.
    pub closed spec fn agree_on_layer(&self, o: &Self, l: int) -> bool {
        &&& self.size() == o.size()
        &&& self.data@ == o.data@
        &&& self.M == o.M
        &&& self.M0 == o.M0
        &&& forall|i: int| 0 <= i < self.size() ==> #[trigger] self.levels(i) == o.levels(i)
        &&& forall|i: int| 0 <= i < self.size() && l < self.levels(i) ==> #[trigger] self.links(i, l) == o.links(i, l)
    }

    /// Neighbour selection is a function of what it reads: on indexes that
    /// agree on layer `l`, the same candidates give the same links.
    proof fn lemma_selection_unique<F: Fn(&V, &V) -> u32>(
        a: Self,
        b: Self,
        q: V,
        l: int,
        cands: Seq<Link>,
        keep: bool,
        f: F,
        r1: Seq<Link>,
        r2: Seq<Link>,
    )
        requires
            a.agree_on_layer(&b, l),
            0 <= l,
            forall|k: int| 0 <= k < cands.len() ==> (#[trigger] cands[k]).node_index < a.size() && l < a.levels(
                cands[k].node_index as int,
            ),
            a.selection(q, l, cands, true, keep, f, r1),
            b.selection(q, l, cands, true, keep, f, r2),
        ensures
            r1 == r2,
    {
        assert forall|k: int| 0 <= k < cands.len() implies a.links((#[trigger] cands[k]).node_index as int, l)
            == b.links(cands[k].node_index as int, l) by {}
        a.lemma_gathered_same(&b, cands, l, true, cands.len() as int);
        let maxc = a.max_conn(l);
        assert(maxc == b.max_conn(l));
        let p1 = choose|pool: Seq<Link>| #[trigger] a.pool_of(q, l, cands, true, f, pool)
            && if pool.len() <= a.max_conn(l) {
                r1 == pool
            } else {
                exists|s: int| a.heuristic_split(f, pool, r1, s, keep, a.max_conn(l) as int)
            };
        let p2 = choose|pool: Seq<Link>| #[trigger] b.pool_of(q, l, cands, true, f, pool)
            && if pool.len() <= b.max_conn(l) {
                r2 == pool
            } else {
                exists|s: int| b.heuristic_split(f, pool, r2, s, keep, b.max_conn(l) as int)
            };
        assert(p1.to_set() =~= p2.to_set()) by {
            assert forall|x: Link| p1.contains(x) implies p2.contains(x) by {
                let k = choose|k: int| 0 <= k < p1.len() && p1[k] == x;
                assert(has_index(p1, x.node_index as int));
                assert(has_index(p2, x.node_index as int));
                let m = choose|m: int| 0 <= m < p2.len() && #[trigger] p2[m].node_index == x.node_index;
                assert(p2[m] == x);
            }
            assert forall|x: Link| p2.contains(x) implies p1.contains(x) by {
                let k = choose|k: int| 0 <= k < p2.len() && p2[k] == x;
                assert(has_index(p2, x.node_index as int));
                assert(has_index(p1, x.node_index as int));
                let m = choose|m: int| 0 <= m < p1.len() && #[trigger] p1[m].node_index == x.node_index;
                assert(p1[m] == x);
            }
        }
        lemma_descending_unique(p1, p2);
        if p1.len() > maxc {
            assert(distinct_targets(p1)) by {
                assert forall|u: int, v: int| 0 <= u < p1.len() && 0 <= v < p1.len() && u != v implies
                    #[trigger] p1[u].node_index != #[trigger] p1[v].node_index by {
                    if p1[u].node_index == p1[v].node_index {
                        assert(p1[u] == p1[v]);
                        if u < v {
                            assert(link_lt(p1[v], p1[u]));
                        } else {
                            assert(link_lt(p1[u], p1[v]));
                        }
                    }
                }
            }
            let s1 = choose|s: int| a.heuristic_split(f, p1, r1, s, keep, maxc as int);
            let s2 = choose|s: int| b.heuristic_split(f, p1, r2, s, keep, maxc as int);
            assert(a.heuristic_split(f, p1, r2, s2, keep, maxc as int));
            a.lemma_split_unique(f, p1, r1, s1, r2, s2, keep, maxc as int);
        }
    }

    /// Chooses at most `maxc` links of `pool`, closest first: a link is kept
    /// when it is closer to `q` than to every link kept before it; the others
    /// are dropped, or with `keep_pruned` set aside, and then fill the room
    /// that is left, closest first.
    fn prune<F: Fn(&V, &V) -> u32>(
        &self,
        qv: &V,
        pool: Vec<Link>,
        maxc: usize,
        keep_pruned: bool,
        dist: &F,
    ) -> (res: Vec<Link>)
        requires
            self.wf_core(),
            is_distance(*dist),
            descending(pool@),
            distinct_targets(pool@),
            forall|k: int| 0 <= k < pool@.len() ==> {
                let t = #[trigger] pool@[k].node_index;
                &&& t < self.size()
                &&& pool@[k].distance == dist_of(*dist, *qv, self.data@[t as int])
            },
            1 <= maxc < pool@.len(),
        ensures
            1 <= res@.len() <= maxc,
            keep_pruned ==> res@.len() == maxc,
            distinct_targets(res@),
            forall|k: int| 0 <= k < res@.len() ==> pool@.contains(#[trigger] res@[k]),
            exists|s: int| self.heuristic_split(*dist, pool@, res@, s, keep_pruned, maxc as int),
    {
        let ghost all = pool@;
        let mut pq = pool;
        let mut best: Vec<Link> = Vec::new();
        let mut discarded: Vec<Link> = Vec::new();
        while pq.len() > 0 && best.len() < maxc
            invariant
                self.wf_core(),
                is_distance(*dist),
                descending(all),
                distinct_targets(all),
                forall|k: int| 0 <= k < all.len() ==> {
                    let t = #[trigger] all[k].node_index;
                    &&& t < self.size()
                    &&& all[k].distance == dist_of(*dist, *qv, self.data@[t as int])
                },
                1 <= maxc < all.len(),
                pq@.len() <= all.len(),
                pq@ == all.subrange(0, pq@.len() as int),
                best@.len() <= maxc,
                best@.len() == 0 ==> pq@.len() == all.len(),
                keep_pruned ==> best@.len() + discarded@.len() == all.len() - pq@.len(),
                !keep_pruned ==> discarded@.len() == 0,
                distinct_targets(best@),
                distinct_targets(discarded@),
                descending(discarded@),
                forall|k: int| 0 <= k < best@.len() ==> all.contains(#[trigger] best@[k]),
                forall|k: int| 0 <= k < discarded@.len() ==> all.contains(#[trigger] discarded@[k]),
                forall|u: int| #[trigger] has_index(best@, u) ==> !has_index(pq@, u) && !has_index(discarded@, u),
                forall|u: int| #[trigger] has_index(discarded@, u) ==> !has_index(pq@, u),
                self.diverse(*dist, best@),
                forall|k: int, j: int| 0 <= k < best@.len() && 0 <= j < pq@.len() ==> link_lt(#[trigger] best@[k], #[trigger] pq@[j]),
                forall|k: int, j: int| 0 <= k < discarded@.len() && 0 <= j < pq@.len() ==> link_lt(#[trigger] discarded@[k], #[trigger] pq@[j]),
                forall|k: int| 0 <= k < discarded@.len() ==> self.rejected(*dist, best@, #[trigger] discarded@[k]),
                forall|p: int| pq@.len() <= p < all.len() ==> has_index(best@, (#[trigger] all[p]).node_index as int) || self.rejected(*dist, best@, all[p]),
                keep_pruned ==> forall|p: int| pq@.len() <= p < all.len() ==> has_index(best@, (#[trigger] all[p]).node_index as int)
                    || has_index(discarded@, all[p].node_index as int),
            decreases pq@.len(),
        {
            let ghost pq0 = pq@;
            let c = pq.pop().unwrap();
            let m = pq.len();
            proof {
                assert(pq0[m as int] == all[m as int]);
                assert(c == all[m as int]);
                assert(pq@ =~= all.subrange(0, m as int));
                assert(has_index(pq0, c.node_index as int)) by {
                    assert(pq0[m as int].node_index == c.node_index);
                }
                assert(!has_index(pq@, c.node_index as int)) by {
                    if has_index(pq@, c.node_index as int) {
                        let k = choose|k: int| 0 <= k < pq@.len() && #[trigger] pq@[k].node_index == c.node_index;
                        assert(pq@[k] == all[k]);
                    }
                }
                assert forall|u: int| #[trigger] has_index(pq@, u) implies has_index(pq0, u) by {
                    let k = choose|k: int| 0 <= k < pq@.len() && #[trigger] pq@[k].node_index == u;
                    assert(pq0[k] == pq@[k]);
                }
                assert forall|k: int| 0 <= k < best@.len() implies link_lt(#[trigger] best@[k], c) by {
                    assert(link_lt(best@[k], pq0[m as int]));
                }
                assert forall|j: int| 0 <= j < pq@.len() implies link_lt(c, #[trigger] pq@[j]) by {
                    assert(pq@[j] == all[j]);
                }
            }
            let cidx = c.node_index;
            let c_to_q = distance(dist, qv, &self.data[cidx]);
            let mut diverse = true;
            let mut t: usize = 0;
            while t < best.len()
                invariant
                    self.wf_core(),
                    is_distance(*dist),
                    cidx < self.size(),
                    0 <= t <= best@.len(),
                    c_to_q == dist_of(*dist, *qv, self.data@[cidx as int]),
                    !diverse ==> best@.len() > 0,
                    !diverse ==> t < best@.len() && c_to_q >= dist_of(
                        *dist,
                        self.data@[cidx as int],
                        self.data@[best@[t as int].node_index as int],
                    ),
                    diverse ==> forall|b: int| 0 <= b < t ==> c_to_q < dist_of(
                        *dist,
                        self.data@[cidx as int],
                        self.data@[(#[trigger] best@[b]).node_index as int],
                    ),
                    forall|k: int| 0 <= k < best@.len() ==> all.contains(#[trigger] best@[k]),
                    forall|k: int| 0 <= k < all.len() ==> (#[trigger] all[k]).node_index < self.size(),
                ensures
                    !diverse ==> best@.len() > 0,
                    !diverse ==> t < best@.len() && c_to_q >= dist_of(
                        *dist,
                        self.data@[cidx as int],
                        self.data@[best@[t as int].node_index as int],
                    ),
                    diverse ==> forall|b: int| 0 <= b < best@.len() ==> c_to_q < dist_of(
                        *dist,
                        self.data@[cidx as int],
                        self.data@[(#[trigger] best@[b]).node_index as int],
                    ),
                decreases best@.len() - t,
            {
                let other = best[t].node_index;
                proof {
                    assert(all.contains(best@[t as int]));
                    let p = choose|p: int| 0 <= p < all.len() && all[p] == best@[t as int];
                    assert(all[p].node_index < self.size());
                }
                let c_to_other = distance(dist, &self.data[cidx], &self.data[other]);
                if c_to_q >= c_to_other {
                    diverse = false;
                    break;
                }
                t += 1;
            }
            let x = Link { node_index: cidx, distance: c_to_q };
            proof {
                assert(all[m as int] == c);
                assert(x == c);
                assert(!has_index(best@, cidx as int));
                assert(!has_index(discarded@, cidx as int));
            }
            let ghost b0 = best@;
            let ghost d0 = discarded@;
            if diverse {
                best.push(x);
                proof {
                    assert forall|k: int| 0 <= k < best@.len() implies all.contains(#[trigger] best@[k]) by {
                        if k < b0.len() {
                            assert(best@[k] == b0[k]);
                        } else {
                            assert(all[m as int] == best@[k]);
                        }
                    }
                    assert forall|u: int| #[trigger] has_index(best@, u) implies !has_index(pq@, u) && !has_index(discarded@, u) by {
                        let k = choose|k: int| 0 <= k < best@.len() && #[trigger] best@[k].node_index == u;
                        if k < b0.len() {
                            assert(best@[k] == b0[k]);
                            assert(has_index(b0, u));
                        }
                    }
                    assert forall|a: int, b: int| 0 <= a < best@.len() && 0 <= b < best@.len() && a != b implies
                        #[trigger] best@[a].node_index != #[trigger] best@[b].node_index by {
                        if a < b0.len() && b < b0.len() {
                            assert(best@[a] == b0[a] && best@[b] == b0[b]);
                        } else if a < b0.len() {
                            assert(best@[a] == b0[a]);
                            assert(has_index(b0, b0[a].node_index as int));
                        } else if b < b0.len() {
                            assert(best@[b] == b0[b]);
                            assert(has_index(b0, b0[b].node_index as int));
                        }
                    }
                    assert(self.diverse(*dist, best@)) by {
                        assert forall|a: int, b: int| 0 <= a < b < best@.len() implies link_lt(#[trigger] best@[a], #[trigger] best@[b]) by {
                            if b < b0.len() {
                                assert(best@[a] == b0[a] && best@[b] == b0[b]);
                            } else {
                                assert(best@[a] == b0[a]);
                            }
                        }
                        assert forall|a: int, b: int| 0 <= b < a < best@.len() implies (#[trigger] best@[a]).distance < dist_of(
                            *dist,
                            self.data@[best@[a].node_index as int],
                            self.data@[(#[trigger] best@[b]).node_index as int],
                        ) by {
                            assert(best@[b] == b0[b]);
                            if a < b0.len() {
                                assert(best@[a] == b0[a]);
                            } else {
                                assert(best@[a] == x);
                                assert(c_to_q < dist_of(*dist, self.data@[cidx as int], self.data@[b0[b].node_index as int]));
                            }
                        }
                    }
                    assert forall|k: int| 0 <= k < discarded@.len() implies self.rejected(*dist, best@, #[trigger] discarded@[k]) by {
                        assert(self.rejected(*dist, b0, discarded@[k]));
                        let b = choose|b: int| 0 <= b < b0.len() && link_lt(#[trigger] b0[b], discarded@[k]) && discarded@[k].distance >= dist_of(
                            *dist,
                            self.data@[discarded@[k].node_index as int],
                            self.data@[b0[b].node_index as int],
                        );
                        assert(best@[b] == b0[b]);
                    }
                    assert forall|p: int| pq@.len() <= p < all.len() implies has_index(best@, (#[trigger] all[p]).node_index as int) || self.rejected(*dist, best@, all[p]) by {
                        if p == m {
                            assert(best@[b0.len() as int] == all[p]);
                        } else if has_index(b0, all[p].node_index as int) {
                            let k = choose|k: int| 0 <= k < b0.len() && #[trigger] b0[k].node_index == all[p].node_index;
                            assert(best@[k] == b0[k]);
                        } else {
                            assert(self.rejected(*dist, b0, all[p]));
                            let b = choose|b: int| 0 <= b < b0.len() && link_lt(#[trigger] b0[b], all[p]) && all[p].distance >= dist_of(
                                *dist,
                                self.data@[all[p].node_index as int],
                                self.data@[b0[b].node_index as int],
                            );
                            assert(best@[b] == b0[b]);
                        }
                    }
                }
            } else {
                proof {
                    assert(self.rejected(*dist, b0, x)) by {
                        assert(link_lt(b0[t as int], x));
                    }
                }
                if keep_pruned {
                    insert_descending(&mut discarded, x);
                    proof {
                        assert forall|k: int| 0 <= k < discarded@.len() implies all.contains(#[trigger] discarded@[k]) by {
                            if discarded@[k] == x {
                                assert(all[m as int] == discarded@[k]);
                            } else {
                                let k0 = choose|k0: int| 0 <= k0 < d0.len() && d0[k0] == discarded@[k];
                            }
                        }
                        assert forall|u: int| #[trigger] has_index(best@, u) implies !has_index(pq@, u) && !has_index(discarded@, u) by {
                            assert(has_index(b0, u));
                        }
                        assert forall|u: int| #[trigger] has_index(discarded@, u) implies !has_index(pq@, u) by {
                            if u != cidx {
                                assert(has_index(d0, u));
                            }
                        }
                        assert forall|a: int, b: int| 0 <= a < discarded@.len() && 0 <= b < discarded@.len() && a != b implies
                            #[trigger] discarded@[a].node_index != #[trigger] discarded@[b].node_index by {
                            if discarded@[a] != x && discarded@[b] != x {
                                let ka = choose|ka: int| 0 <= ka < d0.len() && d0[ka] == discarded@[a];
                                let kb = choose|kb: int| 0 <= kb < d0.len() && d0[kb] == discarded@[b];
                                if ka == kb {
                                    assert(link_lt(discarded@[a], discarded@[b]) || link_lt(discarded@[b], discarded@[a]));
                                }
                            } else if discarded@[a] == x && discarded@[b] == x {
                            } else if discarded@[a] == x {
                                let kb = choose|kb: int| 0 <= kb < d0.len() && d0[kb] == discarded@[b];
                                assert(has_index(d0, d0[kb].node_index as int));
                            } else {
                                let ka = choose|ka: int| 0 <= ka < d0.len() && d0[ka] == discarded@[a];
                                assert(has_index(d0, d0[ka].node_index as int));
                            }
                        }
                        assert forall|k: int, j: int| 0 <= k < discarded@.len() && 0 <= j < pq@.len() implies link_lt(#[trigger] discarded@[k], #[trigger] pq@[j]) by {
                            if discarded@[k] != x {
                                let k0 = choose|k0: int| 0 <= k0 < d0.len() && d0[k0] == discarded@[k];
                                assert(pq@[j] == pq0[j]);
                                assert(link_lt(d0[k0], pq0[j]));
                            }
                        }
                        assert forall|k: int| 0 <= k < discarded@.len() implies self.rejected(*dist, best@, #[trigger] discarded@[k]) by {
                            if discarded@[k] != x {
                                let k0 = choose|k0: int| 0 <= k0 < d0.len() && d0[k0] == discarded@[k];
                                assert(self.rejected(*dist, b0, d0[k0]));
                            }
                        }
                    }
                }
                proof {
                    assert forall|k: int, j: int| 0 <= k < discarded@.len() && 0 <= j < pq@.len() implies link_lt(#[trigger] discarded@[k], #[trigger] pq@[j]) by {
                        if discarded@ == d0 {
                            assert(pq@[j] == pq0[j]);
                            assert(link_lt(d0[k], pq0[j]));
                        }
                    }
                    assert forall|p: int| pq@.len() <= p < all.len() implies has_index(best@, (#[trigger] all[p]).node_index as int) || self.rejected(*dist, best@, all[p]) by {
                        if p == m {
                            assert(all[p] == x);
                        }
                    }
                }
            }
            proof {
                assert forall|k: int, j: int| 0 <= k < best@.len() && 0 <= j < pq@.len() implies link_lt(#[trigger] best@[k], #[trigger] pq@[j]) by {
                    assert(pq@[j] == pq0[j]);
                    if k < b0.len() {
                        assert(best@[k] == b0[k]);
                        assert(link_lt(b0[k], pq0[j]));
                    }
                }
            }
        }
        let ghost kept = best@;
        let ghost pq_end = pq@;
        proof {
            if best@.len() == 0 {
                assert(pq@.len() == all.len());
            }
        }
        if keep_pruned {
            while discarded.len() > 0 && best.len() < maxc
                invariant
                    best@.len() <= maxc,
                    best@.len() >= kept.len() >= 1,
                    best@.subrange(0, kept.len() as int) == kept,
                    best@.len() == maxc || best@.len() + discarded@.len() == all.len(),
                    maxc < all.len(),
                    distinct_targets(best@),
                    distinct_targets(discarded@),
                    descending(discarded@),
                    forall|k: int| 0 <= k < best@.len() ==> all.contains(#[trigger] best@[k]),
                    forall|k: int| 0 <= k < discarded@.len() ==> all.contains(#[trigger] discarded@[k]),
                    forall|u: int| #[trigger] has_index(best@, u) ==> !has_index(discarded@, u),
                    forall|k: int| 0 <= k < discarded@.len() ==> self.rejected(*dist, kept, #[trigger] discarded@[k]),
                    forall|k: int| kept.len() <= k < best@.len() ==> self.rejected(*dist, kept, #[trigger] best@[k]),
                    ascending(best@.subrange(kept.len() as int, best@.len() as int)),
                    forall|k: int, j: int| kept.len() <= k < best@.len() && 0 <= j < discarded@.len() ==> link_lt(#[trigger] best@[k], #[trigger] discarded@[j]),
                    distinct_targets(all),
                    pq_end.len() <= all.len(),
                    pq_end == all.subrange(0, pq_end.len() as int),
                    forall|p: int| pq_end.len() <= p < all.len() ==> has_index(best@, (#[trigger] all[p]).node_index as int)
                        || has_index(discarded@, all[p].node_index as int),
                    forall|k: int, j: int| kept.len() <= k < best@.len() && 0 <= j < pq_end.len() ==> link_lt(#[trigger] best@[k], #[trigger] pq_end[j]),
                    forall|k: int, j: int| 0 <= k < discarded@.len() && 0 <= j < pq_end.len() ==> link_lt(#[trigger] discarded@[k], #[trigger] pq_end[j]),
                decreases discarded@.len(),
            {
                let ghost d0 = discarded@;
                let ghost b0 = best@;
                let l = discarded.pop().unwrap();
                proof {
                    assert(l == d0[d0.len() - 1]);
                    assert(has_index(d0, l.node_index as int));
                    assert(!has_index(b0, l.node_index as int));
                    assert(!has_index(discarded@, l.node_index as int)) by {
                        if has_index(discarded@, l.node_index as int) {
                            let k = choose|k: int| 0 <= k < discarded@.len() && #[trigger] discarded@[k].node_index == l.node_index;
                            assert(discarded@[k] == d0[k]);
                        }
                    }
                }
                best.push(l);
                proof {
                    assert(best@.subrange(0, kept.len() as int) =~= b0.subrange(0, kept.len() as int));
                    assert forall|k: int| 0 <= k < best@.len() implies all.contains(#[trigger] best@[k]) by {
                        if k < b0.len() {
                            assert(best@[k] == b0[k]);
                        }
                    }
                    assert forall|k: int| 0 <= k < discarded@.len() implies all.contains(#[trigger] discarded@[k]) by {
                        assert(discarded@[k] == d0[k]);
                    }
                    assert forall|a: int, b: int| 0 <= a < discarded@.len() && 0 <= b < discarded@.len() && a != b implies
                        #[trigger] discarded@[a].node_index != #[trigger] discarded@[b].node_index by {
                        assert(discarded@[a] == d0[a] && discarded@[b] == d0[b]);
                    }
                    assert forall|u: int| #[trigger] has_index(best@, u) implies !has_index(discarded@, u) by {
                        if has_index(discarded@, u) {
                            let k = choose|k: int| 0 <= k < discarded@.len() && #[trigger] discarded@[k].node_index == u;
                            assert(discarded@[k] == d0[k]);
                            assert(has_index(d0, u));
                            let k2 = choose|k2: int| 0 <= k2 < best@.len() && #[trigger] best@[k2].node_index == u;
                            if k2 < b0.len() {
                                assert(best@[k2] == b0[k2]);
                                assert(has_index(b0, u));
                            }
                        }
                    }
                    assert forall|a: int, b: int| 0 <= a < best@.len() && 0 <= b < best@.len() && a != b implies
                        #[trigger] best@[a].node_index != #[trigger] best@[b].node_index by {
                        if a < b0.len() && b < b0.len() {
                            assert(best@[a] == b0[a] && best@[b] == b0[b]);
                        } else if a < b0.len() {
                            assert(best@[a] == b0[a]);
                            assert(has_index(b0, b0[a].node_index as int));
                        } else if b < b0.len() {
                            assert(best@[b] == b0[b]);
                            assert(has_index(b0, b0[b].node_index as int));
                        }
                    }
                    assert forall|k: int| 0 <= k < discarded@.len() implies self.rejected(*dist, kept, #[trigger] discarded@[k]) by {
                        assert(discarded@[k] == d0[k]);
                    }
                    assert forall|k: int| kept.len() <= k < best@.len() implies self.rejected(*dist, kept, #[trigger] best@[k]) by {
                        if k < b0.len() {
                            assert(best@[k] == b0[k]);
                        } else {
                            assert(best@[k] == d0[d0.len() - 1]);
                        }
                    }
                    let rs = best@.subrange(kept.len() as int, best@.len() as int);
                    let rs0 = b0.subrange(kept.len() as int, b0.len() as int);
                    assert forall|a: int, b: int| 0 <= a < b < rs.len() implies link_lt(#[trigger] rs[a], #[trigger] rs[b]) by {
                        if b < rs0.len() {
                            assert(rs[a] == rs0[a] && rs[b] == rs0[b]);
                        } else {
                            assert(rs[a] == b0[kept.len() + a]);
                            assert(rs[b] == l);
                            assert(link_lt(b0[kept.len() + a], d0[d0.len() - 1]));
                        }
                    }
                    assert forall|k: int, j: int| kept.len() <= k < best@.len() && 0 <= j < discarded@.len() implies link_lt(#[trigger] best@[k], #[trigger] discarded@[j]) by {
                        assert(discarded@[j] == d0[j]);
                        if k < b0.len() {
                            assert(best@[k] == b0[k]);
                            assert(link_lt(b0[k], d0[j]));
                        } else {
                            assert(best@[k] == d0[d0.len() - 1]);
                            assert(link_lt(d0[d0.len() - 1], d0[j]));
                        }
                    }
                    assert forall|p: int| pq_end.len() <= p < all.len() implies has_index(best@, (#[trigger] all[p]).node_index as int)
                        || has_index(discarded@, all[p].node_index as int) by {
                        let u = all[p].node_index as int;
                        if has_index(b0, u) {
                            let k = choose|k: int| 0 <= k < b0.len() && #[trigger] b0[k].node_index == u;
                            assert(best@[k] == b0[k]);
                        } else {
                            assert(has_index(d0, u));
                            let k = choose|k: int| 0 <= k < d0.len() && #[trigger] d0[k].node_index == u;
                            if k < discarded@.len() {
                                assert(discarded@[k] == d0[k]);
                            } else {
                                assert(best@[b0.len() as int] == d0[k]);
                            }
                        }
                    }
                }
            }
        }
        proof {
            let s = kept.len() as int;
            let r = best@;
            assert(r.subrange(0, s) =~= kept);
            if !keep_pruned {
                assert(r =~= kept);
                assert(r.subrange(s, r.len() as int) =~= Seq::<Link>::empty());
            }
            assert forall|k: int, a: int|
                0 <= k < all.len() && 0 <= a < s && link_lt(#[trigger] all[k], #[trigger] kept[a])
                    && !has_index(kept, all[k].node_index as int) implies self.rejected(*dist, kept, all[k]) by {
                assert(all.contains(kept[a]));
                let pa = choose|pa: int| 0 <= pa < all.len() && all[pa] == kept[a];
                if pa < pq_end.len() {
                    assert(pq_end[pa] == all[pa]);
                    assert(has_index(kept, kept[a].node_index as int));
                    assert(has_index(pq_end, kept[a].node_index as int));
                }
                if k < pa {
                    assert(link_lt(all[pa], all[k]));
                }
                assert(k != pa);
                assert(pq_end.len() <= k);
            }
            assert(self.heuristic_split(*dist, all, r, s, keep_pruned, maxc as int));
        }
        best
    }


    /// Chooses the neighbours of a node or query `qv` on layer `lyr` among
    /// `candidates` and, when `extend`, their neighbours: all of them when
    /// they fit in a neighbour list (in decreasing order), else those that
    /// `prune` keeps.
    fn select_neighbors<F: Fn(&V, &V) -> u32>(
        &mut self,
        qv: &V,
        lyr: usize,
        candidates: Vec<Link>,
        extend: bool,
        keep_pruned: bool,
        dist: &F,
    ) -> (res: Vec<Link>)
        requires
            old(self).wf_core(),
            is_distance(*dist),
            lyr <= old(self).max_layer,
            forall|k: int| 0 <= k < candidates@.len() ==> {
                let t = #[trigger] candidates@[k].node_index;
                t < old(self).size() && lyr < old(self).levels(t as int)
            },
        ensures
            final(self).wf_core(),
            final(self).same_graph(old(self)),
            final(self).selection(*qv, lyr as int, candidates@, extend, keep_pruned, *dist, res@),
    {
        let pool = self.gather_pool(qv, lyr, &candidates, extend, dist);
        let max_connections = self.max_connections(lyr);
        proof {
            self.lemma_same_graph(old(self));
            assert forall|k: int| 0 <= k < pool@.len() implies {
                let t = #[trigger] pool@[k].node_index;
                &&& t < self.size()
                &&& lyr < self.levels(t as int)
                &&& pool@[k].distance == dist_of(*dist, *qv, self.data@[t as int])
                &&& self.from_pool(candidates@, lyr as int, extend, t as int)
            } by {
                assert(old(self).pool_link(*qv, lyr as int, *dist, candidates@, extend, pool@[k]));
            }
            assert forall|a: int, b: int| 0 <= a < pool@.len() && 0 <= b < pool@.len() && a != b implies
                #[trigger] pool@[a].node_index != #[trigger] pool@[b].node_index by {
                assert(self.from_pool(candidates@, lyr as int, extend, pool@[a].node_index as int));
                assert(self.from_pool(candidates@, lyr as int, extend, pool@[b].node_index as int));
            }
            if candidates@.len() > 0 {
                assert(has_index(pool@, candidates@[0].node_index as int));
            }
            assert forall|k: int| 0 <= k < candidates@.len() implies (#[trigger] candidates@[k]).node_index < self.size() by {
                assert(candidates@[k].node_index < old(self).size());
            }
            assert forall|k: int| 0 <= k < candidates@.len() implies self.links((#[trigger] candidates@[k]).node_index as int, lyr as int)
                == old(self).links(candidates@[k].node_index as int, lyr as int) by {
                assert(candidates@[k].node_index < old(self).size());
            }
            self.lemma_gathered_same(old(self), candidates@, lyr as int, extend, candidates@.len() as int);
            assert(self.pool_of(*qv, lyr as int, candidates@, extend, *dist, pool@));
        }
        if pool.len() <= max_connections {
            return pool;
        }
        let res = self.prune(qv, pool, max_connections, keep_pruned, dist);
        proof {
            assert forall|k: int| 0 <= k < res@.len() implies {
                let t = #[trigger] res@[k].node_index;
                &&& t < self.size()
                &&& lyr < self.levels(t as int)
                &&& res@[k].distance == dist_of(*dist, *qv, self.data@[t as int])
                &&& self.from_pool(candidates@, lyr as int, extend, t as int)
            } by {
                let p = choose|p: int| 0 <= p < pool@.len() && pool@[p] == res@[k];
                assert(self.from_pool(candidates@, lyr as int, extend, pool@[p].node_index as int));
            }
        }
        res
    }


    /// `self` differs from `o` at most in the neighbour list of node `at` on
    /// layer `lyr`, and in visit marks.
    pub closed spec fn same_except(&self, o: &Self, at: int, lyr: int) -> bool {
        &&& self.M == o.M
        &&& self.M0 == o.M0
        &&& self.ef_construction == o.ef_construction
        &&& self.ef_search == o.ef_search
        &&& self.entry_point == o.entry_point
        &&& self.max_layer == o.max_layer
        &&& self.data@ == o.data@
        &&& self.nodes@.len() == o.nodes@.len()
        &&& forall|i: int| 0 <= i < self.size() ==> #[trigger] self.levels(i) == o.levels(i)
        &&& forall|i: int, l: int|
            0 <= i < self.size() && 0 <= l < self.levels(i) && (i != at || l != lyr)
                ==> #[trigger] self.links(i, l) == o.links(i, l)
    }

    /// Every candidate's target appears in `r`: with both free of repeated
    /// targets, `r` is at least as long as `cands`.
    proof fn lemma_covering_len(cands: Seq<Link>, r: Seq<Link>)
        requires
            distinct_targets(cands),
            distinct_targets(r),
            forall|c: int| 0 <= c < cands.len() ==> has_index(r, #[trigger] cands[c].node_index as int),
        ensures
            cands.len() <= r.len(),
    {
        let ci = cands.map_values(|l: Link| l.node_index as int);
        let ri = r.map_values(|l: Link| l.node_index as int);
        assert(ci.no_duplicates()) by {
            assert forall|a: int, b: int| 0 <= a < ci.len() && 0 <= b < ci.len() && a != b implies ci[a] != ci[b] by {
                assert(cands[a].node_index != cands[b].node_index);
            }
        }
        assert(ri.no_duplicates()) by {
            assert forall|a: int, b: int| 0 <= a < ri.len() && 0 <= b < ri.len() && a != b implies ri[a] != ri[b] by {
                assert(r[a].node_index != r[b].node_index);
            }
        }
        ci.unique_seq_to_set();
        ri.unique_seq_to_set();
        vstd::seq_lib::seq_to_set_is_finite(ri);
        assert(ci.to_set().subset_of(ri.to_set())) by {
            assert forall|v: int| ci.to_set().contains(v) implies ri.to_set().contains(v) by {
                let c = choose|c: int| 0 <= c < ci.len() && ci[c] == v;
                assert(has_index(r, cands[c].node_index as int));
                let k = choose|k: int| 0 <= k < r.len() && #[trigger] r[k].node_index == cands[c].node_index;
                assert(ri[k] == v);
            }
        }
        vstd::set_lib::lemma_len_subset(ci.to_set(), ri.to_set());
    }

    /// Adds `link` to the neighbour list of node `at` on layer `lyr`; when the
    /// list then reaches its bound, it is replaced by the neighbours that
    /// selection chooses for `at` among the list and its neighbours.
    fn add_backlink<F: Fn(&V, &V) -> u32>(&mut self, at: usize, link: Link, lyr: usize, dist: &F)
        requires
            old(self).wf_core(),
            is_distance(*dist),
            lyr <= old(self).max_layer,
            at < old(self).size(),
            link.node_index < old(self).size(),
            lyr < old(self).levels(at as int),
            link.node_index != at,
            lyr < old(self).levels(link.node_index as int),
            !has_index(old(self).links(at as int, lyr as int), link.node_index as int),
        ensures
            final(self).wf_core(),
            final(self).same_except(old(self), at as int, lyr as int),
            old(self).links(at as int, lyr as int).len() + 1 < old(self).max_conn(lyr as int)
                ==> final(self).links(at as int, lyr as int) == old(self).links(at as int, lyr as int).push(link),
            old(self).links(at as int, lyr as int).len() + 1 >= old(self).max_conn(lyr as int)
                ==> final(self).links(at as int, lyr as int).len() == old(self).max_conn(lyr as int),
            old(self).links(at as int, lyr as int).len() + 1 >= old(self).max_conn(lyr as int) ==> exists|s: Self|
                #[trigger] s.same_except(old(self), at as int, lyr as int) && s.links(at as int, lyr as int).len() == 0
                    && s.selection(
                    old(self).vectors()[at as int],
                    lyr as int,
                    old(self).links(at as int, lyr as int).push(link),
                    true,
                    true,
                    *dist,
                    final(self).links(at as int, lyr as int),
                ),
    {
        let ghost s0 = *self;
        let max_connections = self.max_connections(lyr);
        self.nodes[at].layers[lyr].push(link);
        let ghost s1 = *self;
        proof {
            assert(s1.links(at as int, lyr as int) == s0.links(at as int, lyr as int).push(link));
            assert(distinct_targets(s1.links(at as int, lyr as int))) by {
                let o = s0.links(at as int, lyr as int);
                let n1 = s1.links(at as int, lyr as int);
                assert forall|a: int, b: int| 0 <= a < n1.len() && 0 <= b < n1.len() && a != b implies
                    #[trigger] n1[a].node_index != #[trigger] n1[b].node_index by {
                    if a < o.len() && b < o.len() {
                        assert(n1[a] == o[a] && n1[b] == o[b]);
                    } else if a < o.len() {
                        assert(n1[a] == o[a]);
                    } else {
                        assert(n1[b] == o[b]);
                    }
                }
            }
            if s1.links(at as int, lyr as int).len() < max_connections {
                s0.lemma_list_replaced(s1, at as int, lyr as int);
            }
        }
        if self.nodes[at].layers[lyr].len() >= max_connections {
            let mut candidates: Vec<Link> = Vec::new();
            std::mem::swap(&mut candidates, &mut self.nodes[at].layers[lyr]);
            let ghost s2 = *self;
            proof {
                assert(candidates@ == s1.links(at as int, lyr as int));
                assert(s2.links(at as int, lyr as int) == Seq::<Link>::empty());
                s0.lemma_list_replaced(s2, at as int, lyr as int);
                assert forall|k: int| 0 <= k < candidates@.len() implies {
                    let t = #[trigger] candidates@[k].node_index;
                    t < s2.size() && lyr < s2.levels(t as int)
                } by {
                    assert(s1.links(at as int, lyr as int)[k] == candidates@[k]);
                }
            }
            let qv = self.data[at];
            let new_links = self.select_neighbors(&qv, lyr, candidates, true, true, dist);
            let ghost s3 = *self;
            proof {
                s3.lemma_same_graph(&s2);
                assert(s3.same_except(&s0, at as int, lyr as int)) by {
                    assert forall|i: int, l: int|
                        0 <= i < s3.size() && 0 <= l < s3.levels(i) && (i != at || l != lyr)
                            implies #[trigger] s3.links(i, l) == s0.links(i, l) by {
                        assert(s3.links(i, l) == s2.links(i, l));
                    }
                }
                assert(s3.links(at as int, lyr as int) == s2.links(at as int, lyr as int));
                assert(new_links@.len() == s0.max_conn(lyr as int)) by {
                    if new_links@.len() != s0.max_conn(lyr as int) {
                        Self::lemma_covering_len(candidates@, new_links@);
                    }
                }
            }
            self.nodes[at].layers[lyr] = new_links;
            proof {
                assert(self.links(at as int, lyr as int) == new_links@);
                s3.lemma_list_replaced(*self, at as int, lyr as int);
                assert forall|i: int, l: int|
                    0 <= i < self.size() && 0 <= l < self.levels(i) && (i != at || l != lyr)
                        implies #[trigger] self.links(i, l) == s0.links(i, l) by {
                    assert(self.links(i, l) == s3.links(i, l));
                    assert(s3.links(i, l) == s2.links(i, l));
                    assert(s2.links(i, l) == s1.links(i, l));
                }
            }
        }
    }

    /// Replacing one neighbour list by a list that fits the invariant keeps
    /// the invariant.
    proof fn lemma_list_replaced(&self, s1: Self, at: int, lyr: int)
        requires
            self.wf_core(),
            s1.same_except(self, at, lyr),
            s1.epoch == self.epoch,
            forall|i: int| 0 <= i < s1.size() ==> #[trigger] s1.nodes@[i].epoch == self.nodes@[i].epoch,
            0 <= at < self.size(),
            0 <= lyr < self.levels(at),
            s1.links(at, lyr).len() <= s1.max_conn(lyr),
            distinct_targets(s1.links(at, lyr)),
            forall|j: int| 0 <= j < s1.links(at, lyr).len() ==> {
                let t = #[trigger] s1.links(at, lyr)[j].node_index;
                t < s1.size() && lyr < s1.levels(t as int)
            },
        ensures
            s1.wf_core(),
    {
        assert(s1.links_ok()) by {
            assert forall|i: int, l: int, j: int|
                0 <= i < s1.size() && 0 <= l < s1.levels(i) && 0 <= j < s1.links(i, l).len()
                    implies {
                let t = #[trigger] s1.links(i, l)[j].node_index;
                &&& t < s1.size()
                &&& l < s1.levels(t as int)
            } by {
                if i != at || l != lyr {
                    assert(s1.links(i, l) == self.links(i, l));
                }
            }
        }
        assert(s1.lists_ok()) by {
            assert forall|i: int, l: int| 0 <= i < s1.size() && 0 <= l < s1.levels(i) implies {
                &&& #[trigger] s1.links(i, l).len() <= s1.max_conn(l)
                &&& distinct_targets(s1.links(i, l))
            } by {
                if i != at || l != lyr {
                    assert(s1.links(i, l) == self.links(i, l));
                }
            }
        }
    }


    /// `self` and `o` hold the same vectors, parameters, entry point and
    /// layer counts; links may differ.
    closed spec fn same_frame(&self, o: &Self) -> bool {
        &&& self.M == o.M
        &&& self.M0 == o.M0
        &&& self.ef_construction == o.ef_construction
        &&& self.ef_search == o.ef_search
        &&& self.entry_point == o.entry_point
        &&& self.max_layer == o.max_layer
        &&& self.data@ == o.data@
        &&& self.nodes@.len() == o.nodes@.len()
        &&& forall|i: int| 0 <= i < self.size() ==> #[trigger] self.levels(i) == o.levels(i)
    }

    /// No link on a layer below `below` points to node `v`.
    closed spec fn no_link_to(&self, v: int, below: int) -> bool {
        forall|i: int, l: int, j: int|
            0 <= i < self.size() && 0 <= l < below && l < self.levels(i) && 0 <= j < self.links(i, l).len()
                ==> #[trigger] self.links(i, l)[j].node_index != v
    }

    /// The closest link of a non-empty list.
    fn nearest(list: &Vec<Link>) -> (r: Link)
        requires
            list@.len() > 0,
        ensures
            is_least(list@, r),
    {
        let mut best = list[0];
        let mut i: usize = 1;
        while i < list.len()
            invariant
                1 <= i <= list@.len(),
                list@.contains(best),
                forall|k: int| 0 <= k < i ==> best == #[trigger] list@[k] || link_lt(best, list@[k]),
            decreases list@.len() - i,
        {
            if list[i].precedes(&best) {
                best = list[i];
            }
            i += 1;
        }
        best
    }


    /// Node `x.node_index` links back to node `n` on layer `l` as adding a
    /// backlink does: its list in `o` with `n` appended, or, when that reaches
    /// the bound, a pruned list of exactly `max_conn(l)` links.
    pub closed spec fn backlink_done(&self, o: &Self, n: int, l: int, x: Link) -> bool {
        let a = x.node_index as int;
        &&& o.links(a, l).len() + 1 < o.max_conn(l) ==> self.links(a, l) == o.links(a, l).push(
            Link { node_index: n as usize, distance: x.distance },
        )
        &&& o.links(a, l).len() + 1 >= o.max_conn(l) ==> self.links(a, l).len() == o.max_conn(l)
    }

    /// On layer `l`, every neighbour of node `n` links back to it as adding a
    /// backlink does, and the list of every other node but `n` is that of `o`.
    pub closed spec fn backlinked(&self, o: &Self, n: int, l: int) -> bool {
        &&& forall|j: int|
            0 <= j < self.links(n, l).len() ==> self.backlink_done(o, n, l, #[trigger] self.links(n, l)[j])
        &&& forall|i: int|
            0 <= i < o.size() && l < o.levels(i) && i != n && !has_index(self.links(n, l), i)
                ==> #[trigger] self.links(i, l) == o.links(i, l)
    }

    /// `self` is the index as the backlink from the `j`-th neighbour of node
    /// `n` on layer `l` found it, as far as neighbour selection on that layer
    /// reads it: the vectors and layers of `fin`, the index after all the
    /// backlinks of that layer; on layer `l`, that neighbour's list emptied,
    /// the lists of the neighbours after it as in `o`, the index before, and
    /// every other list as in `fin`.
    pub closed spec fn backlink_view(&self, fin: &Self, o: &Self, n: int, l: int, j: int) -> bool {
        let nb = fin.links(n, l);
        &&& self.M == fin.M
        &&& self.M0 == fin.M0
        &&& self.data@ == fin.data@
        &&& self.size() == fin.size()
        &&& forall|i: int| 0 <= i < fin.size() ==> #[trigger] self.levels(i) == fin.levels(i)
        &&& forall|i: int|
            0 <= i < fin.size() && l < fin.levels(i) ==> #[trigger] self.links(i, l) == if i == nb[j].node_index {
                Seq::<Link>::empty()
            } else if has_index(nb.subrange(j + 1, nb.len() as int), i) {
                o.links(i, l)
            } else {
                fin.links(i, l)
            }
    }

    /// The list of the `j`-th neighbour of node `n` on layer `l` is what
    /// neighbour selection, with the pool extended and pruned links kept,
    /// chooses for that neighbour among its list in `o` and the backlink to
    /// `n`, in the index as that backlink found it.
    pub closed spec fn pruned_backlink<F: Fn(&V, &V) -> u32>(&self, o: &Self, f: F, n: int, l: int, j: int) -> bool {
        let x = self.links(n, l)[j];
        let a = x.node_index as int;
        exists|s: Self|
            #[trigger] s.backlink_view(self, o, n, l, j) && s.selection(
                o.vectors()[a],
                l,
                o.links(a, l).push(Link { node_index: n as usize, distance: x.distance }),
                true,
                true,
                f,
                self.links(a, l),
            )
    }

    /// On layer `l`, every neighbour of node `n` whose list overflowed with
    /// the backlink was pruned as `pruned_backlink` says.
    pub closed spec fn backlinks_pruned<F: Fn(&V, &V) -> u32>(&self, o: &Self, f: F, n: int, l: int) -> bool {
        forall|j: int|
            0 <= j < self.links(n, l).len() && o.links(self.links(n, l)[j].node_index as int, l).len() + 1
                >= o.max_conn(l) ==> #[trigger] self.pruned_backlink(o, f, n, l, j)
    }

    /// A later backlink, which changes only the list of a later neighbour,
    /// keeps what `pruned_backlink` says of the `k`-th one.
    proof fn lemma_pruned_step<F: Fn(&V, &V) -> u32>(cur: Self, next: Self, o: Self, f: F, n: int, l: int, k: int)
        requires
            cur.pruned_backlink(&o, f, n, l, k),
            0 <= k < cur.links(n, l).len(),
            distinct_targets(cur.links(n, l)),
            next.M == cur.M,
            next.M0 == cur.M0,
            next.data@ == cur.data@,
            next.size() == cur.size(),
            forall|i: int| 0 <= i < cur.size() ==> #[trigger] next.levels(i) == cur.levels(i),
            next.links(n, l) == cur.links(n, l),
            forall|i: int|
                0 <= i < cur.size() && l < cur.levels(i) && !has_index(
                    cur.links(n, l).subrange(k + 1, cur.links(n, l).len() as int),
                    i,
                ) ==> #[trigger] next.links(i, l) == cur.links(i, l),
            0 <= cur.links(n, l)[k].node_index < cur.size(),
            l < cur.levels(cur.links(n, l)[k].node_index as int),
        ensures
            next.pruned_backlink(&o, f, n, l, k),
    {
        let nb = cur.links(n, l);
        let a = nb[k].node_index as int;
        let x = nb[k];
        let sv = choose|sv: Self|
            #[trigger] sv.backlink_view(&cur, &o, n, l, k) && sv.selection(
                o.vectors()[a],
                l,
                o.links(a, l).push(Link { node_index: n as usize, distance: x.distance }),
                true,
                true,
                f,
                cur.links(a, l),
            );
        let sub = nb.subrange(k + 1, nb.len() as int);
        assert(!has_index(sub, a)) by {
            if has_index(sub, a) {
                let m = choose|m: int| 0 <= m < sub.len() && #[trigger] sub[m].node_index == a;
                assert(nb[k + 1 + m].node_index == a);
            }
        }
        assert(next.links(a, l) == cur.links(a, l));
        assert forall|i: int| 0 <= i < next.size() && l < next.levels(i) implies #[trigger] sv.links(i, l) == if i == nb[k].node_index {
            Seq::<Link>::empty()
        } else if has_index(sub, i) {
            o.links(i, l)
        } else {
            next.links(i, l)
        } by {
            assert(sv.links(i, l) == if i == nb[k].node_index {
                Seq::<Link>::empty()
            } else if has_index(sub, i) {
                o.links(i, l)
            } else {
                cur.links(i, l)
            });
        }
        assert(sv.backlink_view(&next, &o, n, l, k));
    }

    /// The backlink from the `i`-th neighbour `at` of node `n`, taken from
    /// `s1` to `s2`, when its list overflows, prunes it as `pruned_backlink`
    /// says: in `s1` the neighbours before it are done, those after it still
    /// have their lists of `sb`, which are those of `s0`.
    proof fn lemma_backlink_found<F: Fn(&V, &V) -> u32>(
        s0: Self,
        sb: Self,
        s1: Self,
        s2: Self,
        f: F,
        n: int,
        l: int,
        i: int,
    )
        requires
            s1.same_frame(&s0),
            sb.same_except(&s0, n, l),
            0 <= i < s1.links(n, l).len(),
            0 <= n < s1.size(),
            0 <= l < s1.levels(n),
            distinct_targets(s1.links(n, l)),
            forall|k: int| 0 <= k < s1.links(n, l).len() ==> (#[trigger] s1.links(n, l)[k]).node_index != n,
            forall|k: int|
                i < k < s1.links(n, l).len() ==> #[trigger] s1.links(s1.links(n, l)[k].node_index as int, l)
                    == sb.links(s1.links(n, l)[k].node_index as int, l),
            forall|k: int|
                i < k < s1.links(n, l).len() ==> (#[trigger] s1.links(n, l)[k]).node_index < s1.size()
                    && l < s1.levels(s1.links(n, l)[k].node_index as int),
            ({
                let at = s1.links(n, l)[i].node_index as int;
                &&& 0 <= at < s1.size()
                &&& l < s1.levels(at)
                &&& s1.links(at, l) == s0.links(at, l)
                &&& s2.same_except(&s1, at, l)
                &&& s2.links(n, l) == s1.links(n, l)
                &&& exists|sv: Self|
                    #[trigger] sv.same_except(&s1, at, l) && sv.links(at, l).len() == 0 && sv.selection(
                        s1.vectors()[at],
                        l,
                        s1.links(at, l).push(Link { node_index: n as usize, distance: s1.links(n, l)[i].distance }),
                        true,
                        true,
                        f,
                        s2.links(at, l),
                    )
            }),
        ensures
            s2.pruned_backlink(&s0, f, n, l, i),
    {
        let nv = s1.links(n, l);
        let at = nv[i].node_index as int;
        let sv = choose|sv: Self|
            #[trigger] sv.same_except(&s1, at, l) && sv.links(at, l).len() == 0 && sv.selection(
                s1.vectors()[at],
                l,
                s1.links(at, l).push(Link { node_index: n as usize, distance: nv[i].distance }),
                true,
                true,
                f,
                s2.links(at, l),
            );
        let sub = nv.subrange(i + 1, nv.len() as int);
        assert forall|a: int| 0 <= a < s2.size() && l < s2.levels(a) implies #[trigger] sv.links(a, l) == if a == nv[i].node_index {
            Seq::<Link>::empty()
        } else if has_index(sub, a) {
            s0.links(a, l)
        } else {
            s2.links(a, l)
        } by {
            assert(s2.levels(a) == s1.levels(a));
            assert(sv.levels(a) == s1.levels(a));
            assert(s1.levels(a) == s0.levels(a));
            assert(sb.levels(a) == s0.levels(a));
            if a != at {
                assert(sv.links(a, l) == s1.links(a, l));
                if has_index(sub, a) {
                    let m = choose|m: int| 0 <= m < sub.len() && #[trigger] sub[m].node_index == a;
                    assert(nv[i + 1 + m].node_index == a);
                    assert(s1.links(a, l) == sb.links(a, l));
                    assert(a != n);
                    assert(sb.links(a, l) == s0.links(a, l));
                } else {
                    assert(s2.links(a, l) == s1.links(a, l));
                }
            }
        }
        assert(sv.backlink_view(&s2, &s0, n, l, i));
        assert(s1.vectors()[at] == s0.vectors()[at]);
    }

    /// Links the new node `n` on layer `lyr` to `neighs`, and each of them
    /// back to it.
    fn link_new_node<F: Fn(&V, &V) -> u32>(
        &mut self,
        n: usize,
        lyr: usize,
        neighs: Vec<Link>,
        dist: &F,
    )
        requires
            old(self).wf_core(),
            is_distance(*dist),
            n < old(self).size(),
            lyr < old(self).levels(n as int),
            lyr <= old(self).max_layer,
            old(self).links(n as int, lyr as int).len() == 0,
            old(self).no_link_to(n as int, lyr + 1),
            neighs@.len() <= old(self).max_conn(lyr as int),
            distinct_targets(neighs@),
            forall|k: int| 0 <= k < neighs@.len() ==> {
                let t = #[trigger] neighs@[k].node_index;
                &&& t < old(self).size()
                &&& t != n
                &&& lyr < old(self).levels(t as int)
            },
        ensures
            final(self).wf_core(),
            final(self).same_frame(old(self)),
            final(self).links(n as int, lyr as int) == neighs@,
            forall|i: int, l: int|
                0 <= i < final(self).size() && 0 <= l < final(self).levels(i) && l != lyr
                    ==> #[trigger] final(self).links(i, l) == old(self).links(i, l),
            final(self).backlinked(old(self), n as int, lyr as int),
            final(self).backlinks_pruned(old(self), *dist, n as int, lyr as int),
    {
        let ghost s0 = *self;
        let ghost nv = neighs@;
        self.nodes[n].layers[lyr] = neighs;
        let ghost sb = *self;
        proof {
            assert(sb.links(n as int, lyr as int) == nv);
            assert(sb.same_except(&s0, n as int, lyr as int));
            s0.lemma_list_replaced(sb, n as int, lyr as int);
            assert(sb.no_link_to(n as int, lyr + 1)) by {
                assert forall|i: int, l: int, j: int|
                    0 <= i < sb.size() && 0 <= l < lyr + 1 && l < sb.levels(i) && 0 <= j < sb.links(i, l).len()
                        implies #[trigger] sb.links(i, l)[j].node_index != n by {
                    if i != n || l != lyr {
                        assert(sb.links(i, l) == s0.links(i, l));
                    } else {
                        assert(sb.links(i, l)[j] == nv[j]);
                    }
                }
            }
        }
        let len = self.nodes[n].layers[lyr].len();
        let mut i: usize = 0;
        while i < len
            invariant
                self.wf_core(),
                is_distance(*dist),
                self.same_frame(&sb),
                sb.same_frame(&s0),
                sb.same_except(&s0, n as int, lyr as int),
                n < self.size(),
                lyr < self.levels(n as int),
                lyr <= self.max_layer,
                len == nv.len(),
                0 <= i <= len,
                distinct_targets(nv),
                forall|k: int| 0 <= k < nv.len() ==> {
                    let t = #[trigger] nv[k].node_index;
                    &&& t < self.size()
                    &&& t != n
                    &&& lyr < self.levels(t as int)
                },
                self.links(n as int, lyr as int) == nv,
                sb.no_link_to(n as int, lyr + 1),
                forall|k: int| i <= k < len ==> #[trigger] self.links(nv[k].node_index as int, lyr as int) == sb.links(nv[k].node_index as int, lyr as int),
                forall|a: int, l: int|
                    0 <= a < self.size() && 0 <= l < self.levels(a) && l != lyr
                        ==> #[trigger] self.links(a, l) == s0.links(a, l),
                forall|k: int| 0 <= k < i ==> self.backlink_done(&s0, n as int, lyr as int, #[trigger] nv[k]),
                forall|k: int| 0 <= k < i && s0.links(nv[k].node_index as int, lyr as int).len() + 1 >= s0.max_conn(lyr as int)
                    ==> #[trigger] self.pruned_backlink(&s0, *dist, n as int, lyr as int, k),
                forall|a: int|
                    0 <= a < s0.size() && lyr < s0.levels(a) && a != n && !has_index(nv, a)
                        ==> #[trigger] self.links(a, lyr as int) == s0.links(a, lyr as int),
            decreases len - i,
        {
            let fw_link = self.nodes[n].layers[lyr][i];
            let backlink = Link { node_index: n, distance: fw_link.distance };
            let ghost s1 = *self;
            proof {
                assert(fw_link == nv[i as int]);
                let at = fw_link.node_index as int;
                assert(s1.links(at, lyr as int) == sb.links(at, lyr as int));
                assert(!has_index(s1.links(at, lyr as int), n as int)) by {
                    if has_index(s1.links(at, lyr as int), n as int) {
                        let j = choose|j: int| 0 <= j < s1.links(at, lyr as int).len() && #[trigger] s1.links(at, lyr as int)[j].node_index == n;
                        assert(sb.links(at, lyr as int)[j].node_index == n);
                        assert(sb.levels(at) == s1.levels(at));
                    }
                }
            }
            self.add_backlink(fw_link.node_index, backlink, lyr, dist);
            proof {
                let at = fw_link.node_index as int;
                assert(self.links(n as int, lyr as int) == nv);
                assert forall|k: int| i + 1 <= k < len implies #[trigger] self.links(nv[k].node_index as int, lyr as int) == sb.links(nv[k].node_index as int, lyr as int) by {
                    assert(nv[k].node_index != nv[i as int].node_index);
                    assert(s1.links(nv[k].node_index as int, lyr as int) == sb.links(nv[k].node_index as int, lyr as int));
                }
                assert forall|a: int, l: int|
                    0 <= a < self.size() && 0 <= l < self.levels(a) && l != lyr
                        implies #[trigger] self.links(a, l) == s0.links(a, l) by {
                    assert(self.links(a, l) == s1.links(a, l));
                }
                assert(at != n);
                assert(sb.links(at, lyr as int) == s0.links(at, lyr as int));
                assert(s1.links(at, lyr as int) == s0.links(at, lyr as int));
                assert forall|k: int| 0 <= k < i + 1 implies self.backlink_done(&s0, n as int, lyr as int, #[trigger] nv[k]) by {
                    if k < i {
                        assert(nv[k].node_index != nv[i as int].node_index);
                        assert(self.links(nv[k].node_index as int, lyr as int) == s1.links(nv[k].node_index as int, lyr as int));
                        assert(s1.backlink_done(&s0, n as int, lyr as int, nv[k]));
                    }
                }
                assert forall|a: int|
                    0 <= a < s0.size() && lyr < s0.levels(a) && a != n && !has_index(nv, a)
                        implies #[trigger] self.links(a, lyr as int) == s0.links(a, lyr as int) by {
                    if a == at {
                        assert(nv[i as int].node_index == at);
                    }
                    assert(self.links(a, lyr as int) == s1.links(a, lyr as int));
                }
                let s2 = *self;
                assert forall|k: int| 0 <= k < i + 1 && s0.links(nv[k].node_index as int, lyr as int).len() + 1 >= s0.max_conn(lyr as int)
                    implies #[trigger] s2.pruned_backlink(&s0, *dist, n as int, lyr as int, k) by {
                    if k < i {
                        assert forall|a: int|
                            0 <= a < s1.size() && lyr < s1.levels(a) && !has_index(nv.subrange(k + 1, nv.len() as int), a)
                                implies #[trigger] s2.links(a, lyr as int) == s1.links(a, lyr as int) by {
                            if a == at {
                                assert(nv.subrange(k + 1, nv.len() as int)[i - k - 1].node_index == at);
                            }
                        }
                        Self::lemma_pruned_step(s1, s2, s0, *dist, n as int, lyr as int, k);
                    } else {
                        Self::lemma_backlink_found(s0, sb, s1, s2, *dist, n as int, lyr as int, i as int);
                    }
                }
            }
            i += 1;
        }
    }



    /// Whether node `n` is backlinked on layer `l` depends only on the lists
    /// of that layer.
    proof fn lemma_backlinked_frame(a: Self, b: Self, o: Self, n: int, l: int)
        requires
            b.backlinked(&o, n, l),
            a.wf_core(),
            0 <= n < a.size(),
            0 <= l < a.levels(n),
            a.size() == b.size(),
            forall|i: int| 0 <= i < a.size() ==> #[trigger] a.levels(i) == b.levels(i),
            forall|i: int| 0 <= i < a.size() && l < a.levels(i) ==> #[trigger] a.links(i, l) == b.links(i, l),
            o.size() <= a.size(),
            forall|i: int| 0 <= i < o.size() ==> #[trigger] o.levels(i) == a.levels(i),
        ensures
            a.backlinked(&o, n, l),
    {
        assert(a.links(n, l) == b.links(n, l));
        assert forall|j: int| 0 <= j < a.links(n, l).len() implies a.backlink_done(&o, n, l, #[trigger] a.links(n, l)[j]) by {
            let x = a.links(n, l)[j];
            assert(b.links(n, l)[j] == x);
            assert(b.backlink_done(&o, n, l, x));
            let t = x.node_index as int;
            assert(a.links_ok());
            assert(t < a.size() && l < a.levels(t));
            assert(a.links(t, l) == b.links(t, l));
        }
        assert forall|i: int|
            0 <= i < o.size() && l < o.levels(i) && i != n && !has_index(a.links(n, l), i)
                implies #[trigger] a.links(i, l) == o.links(i, l) by {
            assert(b.links(i, l) == o.links(i, l));
            if i < a.size() && l < a.levels(i) {
                assert(a.links(i, l) == b.links(i, l));
            }
        }
    }

    /// What `backlinks_pruned` says depends only on the vectors, the layers
    /// and the lists of layer `l`.
    proof fn lemma_pruned_frame<F: Fn(&V, &V) -> u32>(a: Self, b: Self, o: Self, f: F, n: int, l: int)
        requires
            b.backlinks_pruned(&o, f, n, l),
            a.wf_core(),
            0 <= n < a.size(),
            0 <= l < a.levels(n),
            a.M == b.M,
            a.M0 == b.M0,
            a.data@ == b.data@,
            a.size() == b.size(),
            forall|i: int| 0 <= i < a.size() ==> #[trigger] a.levels(i) == b.levels(i),
            forall|i: int| 0 <= i < a.size() && l < a.levels(i) ==> #[trigger] a.links(i, l) == b.links(i, l),
        ensures
            a.backlinks_pruned(&o, f, n, l),
    {
        assert(a.links(n, l) == b.links(n, l));
        let nb = a.links(n, l);
        assert forall|j: int|
            0 <= j < nb.len() && o.links(nb[j].node_index as int, l).len() + 1 >= o.max_conn(l)
                implies #[trigger] a.pruned_backlink(&o, f, n, l, j) by {
            assert(b.pruned_backlink(&o, f, n, l, j));
            let x = nb[j];
            let t = x.node_index as int;
            assert(a.links_ok());
            assert(t < a.size() && l < a.levels(t));
            assert(a.links(t, l) == b.links(t, l));
            let sv = choose|sv: Self|
                #[trigger] sv.backlink_view(&b, &o, n, l, j) && sv.selection(
                    o.vectors()[t],
                    l,
                    o.links(t, l).push(Link { node_index: n as usize, distance: x.distance }),
                    true,
                    true,
                    f,
                    b.links(t, l),
                );
            assert forall|i: int| 0 <= i < a.size() && l < a.levels(i) implies #[trigger] sv.links(i, l) == if i == nb[j].node_index {
                Seq::<Link>::empty()
            } else if has_index(nb.subrange(j + 1, nb.len() as int), i) {
                o.links(i, l)
            } else {
                a.links(i, l)
            } by {
                assert(a.links(i, l) == b.links(i, l));
            }
            assert(sv.backlink_view(&a, &o, n, l, j));
        }
    }

    /// What `backlinks_pruned` says of the new node `n` with respect to `s3`
    /// holds with respect to `o`, the index before the insertion, when that
    /// layer's lists of the older nodes and their vectors were still those of
    /// `o`.
    proof fn lemma_pruned_base<F: Fn(&V, &V) -> u32>(s: Self, s3: Self, o: Self, f: F, n: int, l: int)
        requires
            s.backlinks_pruned(&s3, f, n, l),
            s.wf_core(),
            o.size() == n,
            s.size() == n + 1,
            0 <= l < s.levels(n),
            forall|i: int| 0 <= i < n && l < o.levels(i) ==> #[trigger] s3.links(i, l) == o.links(i, l),
            forall|i: int| 0 <= i < n ==> #[trigger] s.levels(i) == o.levels(i),
            forall|i: int| 0 <= i < n ==> #[trigger] s3.data@[i] == o.data@[i],
            s3.M == o.M,
            s3.M0 == o.M0,
            forall|j: int| 0 <= j < s.links(n, l).len() ==> #[trigger] s.links(n, l)[j].node_index < n,
        ensures
            s.backlinks_pruned(&o, f, n, l),
    {
        let nb = s.links(n, l);
        assert forall|j: int|
            0 <= j < nb.len() && o.links(nb[j].node_index as int, l).len() + 1 >= o.max_conn(l)
                implies #[trigger] s.pruned_backlink(&o, f, n, l, j) by {
            let x = nb[j];
            let t = x.node_index as int;
            assert(s.links_ok());
            assert(t < n && l < s.levels(t));
            assert(s3.links(t, l) == o.links(t, l));
            assert(s.pruned_backlink(&s3, f, n, l, j));
            let sv = choose|sv: Self|
                #[trigger] sv.backlink_view(&s, &s3, n, l, j) && sv.selection(
                    s3.vectors()[t],
                    l,
                    s3.links(t, l).push(Link { node_index: n as usize, distance: x.distance }),
                    true,
                    true,
                    f,
                    s.links(t, l),
                );
            let sub = nb.subrange(j + 1, nb.len() as int);
            assert forall|i: int| 0 <= i < s.size() && l < s.levels(i) implies #[trigger] sv.links(i, l) == if i == nb[j].node_index {
                Seq::<Link>::empty()
            } else if has_index(sub, i) {
                o.links(i, l)
            } else {
                s.links(i, l)
            } by {
                if has_index(sub, i) && i != nb[j].node_index {
                    let m = choose|m: int| 0 <= m < sub.len() && #[trigger] sub[m].node_index == i;
                    assert(nb[j + 1 + m].node_index == i);
                    assert(i < n);
                    assert(s3.links(i, l) == o.links(i, l));
                }
            }
            assert(sv.backlink_view(&s, &o, n, l, j));
            assert(s3.vectors()[t] == o.vectors()[t]);
        }
    }

    /// The new node `n` is backlinked on layer `l` with respect to the index
    /// before the insertion, when that layer's lists of the older nodes were
    /// still those of that index.
    proof fn lemma_backlinked_base(s: Self, s3: Self, o: Self, n: int, l: int)
        requires
            s.backlinked(&s3, n, l),
            s.wf_core(),
            o.size() == n,
            s3.size() == n + 1,
            s.size() == n + 1,
            0 <= l,
            forall|i: int| 0 <= i < n && l < o.levels(i) ==> #[trigger] s3.links(i, l) == o.links(i, l),
            forall|i: int| 0 <= i < n ==> #[trigger] s.levels(i) == o.levels(i),
            forall|i: int| 0 <= i < n ==> #[trigger] s3.levels(i) == o.levels(i),
            s3.M == o.M,
            s3.M0 == o.M0,
            l < s.levels(n),
            forall|j: int| 0 <= j < s.links(n, l).len() ==> #[trigger] s.links(n, l)[j].node_index < n,
        ensures
            s.backlinked(&o, n, l),
    {
        assert forall|j: int| 0 <= j < s.links(n, l).len() implies s.backlink_done(&o, n, l, #[trigger] s.links(n, l)[j]) by {
            let x = s.links(n, l)[j];
            assert(s.backlink_done(&s3, n, l, x));
            let t = x.node_index as int;
            assert(s.links_ok());
            assert(t < n && l < s.levels(t));
            assert(s3.links(t, l) == o.links(t, l));
        }
        assert forall|i: int|
            0 <= i < o.size() && l < o.levels(i) && i != n && !has_index(s.links(n, l), i)
                implies #[trigger] s.links(i, l) == o.links(i, l) by {
            assert(s.links(i, l) == s3.links(i, l));
        }
    }

    /// What inserting `vec` on layers `0..=lyr` into `o` makes of it, as far
    /// as the vectors, lists, entry point, top layer and parameters go (the
    /// clauses of `insert`'s contract that fix them).
    pub closed spec fn inserted<F: Fn(&V, &V) -> u32>(&self, o: &Self, vec: V, lyr: int, f: F) -> bool {
        let n = o.size() as int;
        &&& self.wf()
        &&& self.size() == n + 1
        &&& self.vectors() == o.vectors().push(vec)
        &&& self.params() == o.params()
        &&& self.levels(n) == lyr + 1
        &&& forall|i: int| 0 <= i < n ==> #[trigger] self.levels(i) == o.levels(i)
        &&& n == 0 ==> self.entry() == 0 && self.top_layer() == lyr
        &&& n > 0 && lyr > o.top_layer() ==> self.entry() == n && self.top_layer() == lyr
        &&& n > 0 && lyr <= o.top_layer() ==> self.entry() == o.entry() && self.top_layer() == o.top_layer()
        &&& forall|l: int| 0 <= l <= lyr && (n == 0 || l > o.top_layer()) ==> #[trigger] self.links(n, l).len() == 0
        &&& forall|l: int, j: int|
            0 <= l <= lyr && 0 <= j < self.links(n, l).len() ==> #[trigger] self.links(n, l)[j].node_index < n
        &&& n > 0 ==> o.chosen_after_descent(vec, o.shared_top(lyr), f, self.links(n, o.shared_top(lyr)))
        &&& forall|l: int, x: Link|
            0 <= l < lyr && n > 0 && l < o.top_layer() && is_least(self.links(n, l + 1), x)
                ==> #[trigger] o.chosen_from(vec, l, x.node_index as int, f, self.links(n, l))
        &&& forall|l: int|
            0 <= l <= lyr && n > 0 && l <= o.top_layer() ==> {
                &&& #[trigger] self.links(n, l).len() > 0
                &&& self.backlinked(o, n, l)
                &&& self.backlinks_pruned(o, f, n, l)
            }
        &&& forall|i: int, l: int|
            0 <= i < n && 0 <= l < o.levels(i) && (l > lyr || l > o.top_layer()) ==> #[trigger] self.links(i, l)
                == o.links(i, l)
    }

    /// Choices of the new node's neighbours on layer `l`, from the same start,
    /// on the same index, are the same.
    proof fn lemma_chosen_from_unique<F: Fn(&V, &V) -> u32>(
        a: Self,
        b: Self,
        q: V,
        l: int,
        ep: int,
        f: F,
        r1: Seq<Link>,
        r2: Seq<Link>,
    )
        requires
            a.same_index(&b),
            0 <= l,
            a.chosen_from(q, l, ep, f, r1),
            b.chosen_from(q, l, ep, f, r2),
        ensures
            r1 == r2,
    {
        Self::lemma_graph_facts(a, b);
        assert(a.ef_construction == b.ef_construction);
        assert(a.data@ == b.data@);
        let w = a.walk(q, ep, l, a.ef_construction as int, f);
        assert(w == b.walk(q, ep, l, b.ef_construction as int, f));
        assert(a.agree_on_layer(&b, l));
        Self::lemma_selection_unique(a, b, q, l, w, true, f, r1, r2);
    }

    /// The new node's lists on the shared layers from `l` up are the same
    /// after the same insertion into the same index.
    proof fn lemma_new_lists_agree<F: Fn(&V, &V) -> u32>(
        a0: Self,
        b0: Self,
        a1: Self,
        b1: Self,
        vec: V,
        lyr: int,
        f: F,
        l: int,
    )
        requires
            a0.same_index(&b0),
            a1.inserted(&a0, vec, lyr, f),
            b1.inserted(&b0, vec, lyr, f),
            a0.size() > 0,
            0 <= l <= a0.shared_top(lyr),
        ensures
            forall|m: int| l <= m <= a0.shared_top(lyr) ==> #[trigger] a1.links(a0.size() as int, m) == b1.links(
                a0.size() as int,
                m,
            ),
        decreases a0.shared_top(lyr) - l,
    {
        Self::lemma_graph_facts(a0, b0);
        let n = a0.size() as int;
        let st = a0.shared_top(lyr);
        assert(st == b0.shared_top(lyr));
        if l == st {
            Self::lemma_descent_same_index(a0, b0, vec, st, f);
            Self::lemma_chosen_from_unique(a0, b0, vec, st, a0.descent(vec, st, f), f, a1.links(n, st), b1.links(n, st));
        } else {
            Self::lemma_new_lists_agree(a0, b0, a1, b1, vec, lyr, f, l + 1);
            let up = a1.links(n, l + 1);
            assert(up == b1.links(n, l + 1));
            assert(up.len() > 0);
            lemma_least_exists(up);
            let x = choose|x: Link| #[trigger] is_least(up, x);
            assert(a0.chosen_from(vec, l, x.node_index as int, f, a1.links(n, l)));
            assert(b0.chosen_from(vec, l, x.node_index as int, f, b1.links(n, l)));
            Self::lemma_chosen_from_unique(a0, b0, vec, l, x.node_index as int, f, a1.links(n, l), b1.links(n, l));
        }
    }

    /// The lists of the first `k` neighbours of the new node on a shared
    /// layer `l` are the same after the same insertion into the same index.
    proof fn lemma_backlinks_agree<F: Fn(&V, &V) -> u32>(
        a0: Self,
        b0: Self,
        a1: Self,
        b1: Self,
        vec: V,
        lyr: int,
        f: F,
        l: int,
        k: int,
    )
        requires
            a0.wf(),
            a0.same_index(&b0),
            a1.inserted(&a0, vec, lyr, f),
            b1.inserted(&b0, vec, lyr, f),
            a0.size() > 0,
            0 <= l <= a0.shared_top(lyr),
            a1.links(a0.size() as int, l) == b1.links(a0.size() as int, l),
            0 <= k <= a1.links(a0.size() as int, l).len(),
        ensures
            forall|j: int| 0 <= j < k ==> #[trigger] a1.links(a1.links(a0.size() as int, l)[j].node_index as int, l)
                == b1.links(a1.links(a0.size() as int, l)[j].node_index as int, l),
        decreases k,
    {
        if k > 0 {
            Self::lemma_backlinks_agree(a0, b0, a1, b1, vec, lyr, f, l, k - 1);
            Self::lemma_graph_facts(a0, b0);
            let n = a0.size() as int;
            let nb = a1.links(n, l);
            let j = k - 1;
            let x = nb[j];
            let a = x.node_index as int;
            assert(a < n);
            assert(a1.links_ok());
            assert(l < a1.levels(a));
            assert(a1.levels(a) == a0.levels(a));
            assert(a0.links(a, l) == b0.links(a, l));
            assert(a1.backlinked(&a0, n, l));
            assert(b1.backlinked(&b0, n, l));
            assert(a1.backlink_done(&a0, n, l, nb[j]));
            assert(b1.backlink_done(&b0, n, l, b1.links(n, l)[j]));
            assert(a0.max_conn(l) == b0.max_conn(l));
            if a0.links(a, l).len() + 1 >= a0.max_conn(l) {
                assert(a1.backlinks_pruned(&a0, f, n, l));
                assert(b1.backlinks_pruned(&b0, f, n, l));
                assert(a1.pruned_backlink(&a0, f, n, l, j));
                assert(b1.pruned_backlink(&b0, f, n, l, j));
                let cands = a0.links(a, l).push(Link { node_index: n as usize, distance: x.distance });
                assert(cands == b0.links(a, l).push(Link { node_index: n as usize, distance: x.distance }));
                assert(a0.vectors()[a] == b0.vectors()[a]);
                let sv1 = choose|sv: Self|
                    #[trigger] sv.backlink_view(&a1, &a0, n, l, j) && sv.selection(
                        a0.vectors()[a],
                        l,
                        cands,
                        true,
                        true,
                        f,
                        a1.links(a, l),
                    );
                let sv2 = choose|sv: Self|
                    #[trigger] sv.backlink_view(&b1, &b0, n, l, j) && sv.selection(
                        b0.vectors()[a],
                        l,
                        b0.links(a, l).push(Link { node_index: n as usize, distance: x.distance }),
                        true,
                        true,
                        f,
                        b1.links(a, l),
                    );
                assert(a1.vectors() == b1.vectors());
                assert(a1.params() == b1.params());
                assert forall|i: int| 0 <= i < a1.size() implies #[trigger] a1.levels(i) == b1.levels(i) by {
                    if i < n {
                        assert(a1.levels(i) == a0.levels(i));
                        assert(b1.levels(i) == b0.levels(i));
                    }
                }
                let sub = nb.subrange(j + 1, nb.len() as int);
                assert forall|t: int| 0 <= t < sv1.size() && l < sv1.levels(t) implies #[trigger] sv1.links(t, l) == sv2.links(t, l) by {
                    assert(sv1.links(t, l) == if t == nb[j].node_index {
                        Seq::<Link>::empty()
                    } else if has_index(sub, t) {
                        a0.links(t, l)
                    } else {
                        a1.links(t, l)
                    });
                    assert(sv2.links(t, l) == if t == nb[j].node_index {
                        Seq::<Link>::empty()
                    } else if has_index(sub, t) {
                        b0.links(t, l)
                    } else {
                        b1.links(t, l)
                    });
                    if t != nb[j].node_index {
                        if has_index(sub, t) {
                            let m = choose|m: int| 0 <= m < sub.len() && #[trigger] sub[m].node_index == t;
                            assert(nb[j + 1 + m].node_index == t);
                            assert(t < n);
                            assert(l < a0.levels(t));
                        } else if t == n {
                        } else if has_index(nb, t) {
                            let p = choose|p: int| 0 <= p < nb.len() && #[trigger] nb[p].node_index == t;
                            if p > j {
                                assert(sub[p - j - 1].node_index == t);
                            }
                            assert(p < j);
                            assert(a1.links(nb[p].node_index as int, l) == b1.links(nb[p].node_index as int, l));
                        } else {
                            assert(t < n);
                            assert(l < a0.levels(t));
                            assert(a1.links(t, l) == a0.links(t, l));
                            assert(b1.links(t, l) == b0.links(t, l));
                        }
                    }
                }
                assert(sv1.agree_on_layer(&sv2, l));
                assert forall|c: int| 0 <= c < cands.len() implies (#[trigger] cands[c]).node_index < sv1.size() && l < sv1.levels(
                    cands[c].node_index as int,
                ) by {
                    if c < a0.links(a, l).len() {
                        assert(cands[c] == a0.links(a, l)[c]);
                        assert(a0.links_ok());
                        let t = cands[c].node_index as int;
                        assert(t < n && l < a0.levels(t));
                        assert(a1.levels(t) == a0.levels(t));
                    } else {
                        assert(a1.nodes.len() == a1.nodes@.len());
                        assert(n < usize::MAX);
                        assert(cands[c].node_index == n);
                        assert(a1.levels(n) == lyr + 1);
                    }
                }
                Self::lemma_selection_unique(sv1, sv2, a0.vectors()[a], l, cands, true, f, a1.links(a, l), b1.links(a, l));
            }
        }
    }

    /// Inserting the same vector on the same layers into the same index
    /// gives the same index: construction is reproducible (the layer drawn
    /// from a seeded generator being the caller's).
    pub proof fn lemma_insert_reproducible<F: Fn(&V, &V) -> u32>(
        a0: Self,
        b0: Self,
        a1: Self,
        b1: Self,
        vec: V,
        lyr: int,
        f: F,
    )
        requires
            a0.wf(),
            b0.wf(),
            a0.same_index(&b0),
            0 <= lyr,
            a1.inserted(&a0, vec, lyr, f),
            b1.inserted(&b0, vec, lyr, f),
        ensures
            a1.same_index(&b1),
    {
        Self::lemma_graph_facts(a0, b0);
        let n = a0.size() as int;
        assert(a1.size() == b1.size());
        assert(a1.vectors() == b1.vectors());
        assert(a1.params() == b1.params());
        assert(a1.entry() == b1.entry() && a1.top_layer() == b1.top_layer());
        assert forall|i: int| 0 <= i < a1.size() implies #[trigger] a1.levels(i) == b1.levels(i) by {
            if i < n {
                assert(a1.levels(i) == a0.levels(i));
                assert(b1.levels(i) == b0.levels(i));
            }
        }
        if n > 0 {
            Self::lemma_new_lists_agree(a0, b0, a1, b1, vec, lyr, f, 0);
        }
        assert forall|i: int, l: int| 0 <= i < a1.size() && 0 <= l < a1.levels(i) implies #[trigger] a1.links(i, l)
            == b1.links(i, l) by {
            let st = a0.shared_top(lyr);
            if i == n {
                if n == 0 || l > a0.top_layer() {
                    assert(a1.links(n, l) =~= b1.links(n, l));
                }
            } else {
                assert(a1.levels(i) == a0.levels(i));
                if l > lyr || l > a0.top_layer() {
                    assert(a1.links(i, l) == a0.links(i, l));
                    assert(b1.links(i, l) == b0.links(i, l));
                } else {
                    let nb = a1.links(n, l);
                    assert(nb == b1.links(n, l));
                    assert(a1.backlinked(&a0, n, l));
                    assert(b1.backlinked(&b0, n, l));
                    if has_index(nb, i) {
                        let p = choose|p: int| 0 <= p < nb.len() && #[trigger] nb[p].node_index == i;
                        Self::lemma_backlinks_agree(a0, b0, a1, b1, vec, lyr, f, l, nb.len() as int);
                        assert(a1.links(nb[p].node_index as int, l) == b1.links(nb[p].node_index as int, l));
                    } else {
                        assert(a1.links(i, l) == a0.links(i, l));
                        assert(b1.links(i, l) == b0.links(i, l));
                    }
                }
            }
        }
        Self::lemma_graph_from(a1, b1);
    }

    /// Every link carries the distance, by `f`, from the vector of the node
    /// whose list holds it to the vector of the node it points to.
    pub open spec fn exact_distances<F: Fn(&V, &V) -> u32>(&self, f: F) -> bool {
        forall|i: int, l: int, j: int|
            0 <= i < self.size() && 0 <= l < self.levels(i) && 0 <= j < self.links(i, l).len() ==> (#[trigger] self.links(
                i,
                l,
            )[j]).distance == dist_of(f, self.vectors()[i], self.vectors()[self.links(i, l)[j].node_index as int])
    }

    /// What insertion states of the lists keeps every link's distance exact,
    /// when the distance is symmetric (a backlink carries the new node's
    /// distance to its neighbour).
    proof fn lemma_exact_after_insert<F: Fn(&V, &V) -> u32>(s: Self, o: Self, vec: V, insert_lyr: int, f: F)
        requires
            is_symmetric(f),
            o.exact_distances(f),
            o.wf(),
            o.size() < usize::MAX,
            s.wf(),
            s.size() == o.size() + 1,
            s.vectors() == o.vectors().push(vec),
            s.levels(o.size() as int) == insert_lyr + 1,
            forall|i: int| 0 <= i < o.size() ==> #[trigger] s.levels(i) == o.levels(i),
            forall|l: int, j: int|
                0 <= l <= insert_lyr && 0 <= j < s.links(o.size() as int, l).len()
                    ==> #[trigger] s.links(o.size() as int, l)[j].node_index < o.size(),
            forall|l: int, j: int|
                0 <= l <= insert_lyr && 0 <= j < s.links(o.size() as int, l).len()
                    ==> (#[trigger] s.links(o.size() as int, l)[j]).distance == dist_of(
                    f,
                    vec,
                    o.vectors()[s.links(o.size() as int, l)[j].node_index as int],
                ),
            forall|l: int|
                0 <= l <= insert_lyr && o.size() > 0 && l <= o.top_layer() ==> {
                    &&& #[trigger] s.backlinked(&o, o.size() as int, l)
                    &&& s.backlinks_pruned(&o, f, o.size() as int, l)
                },
            forall|i: int, l: int|
                0 <= i < o.size() && 0 <= l < o.levels(i) && (l > insert_lyr || l > o.top_layer())
                    ==> #[trigger] s.links(i, l) == o.links(i, l),
        ensures
            s.exact_distances(f),
    {
        let n = o.size() as int;
        assert forall|i: int, l: int, j: int|
            0 <= i < s.size() && 0 <= l < s.levels(i) && 0 <= j < s.links(i, l).len() implies (#[trigger] s.links(
                i,
                l,
            )[j]).distance == dist_of(f, s.data@[i], s.data@[s.links(i, l)[j].node_index as int]) by {
            let t = s.links(i, l)[j].node_index as int;
            assert(s.data@ == o.data@.push(vec));
            assert(o.data@.len() == n);
            if i == n {
                assert(t < n);
                assert(s.data@[i] == vec);
                assert(s.data@[t] == o.vectors()[t]);
                assert(l <= insert_lyr);
            } else if l > insert_lyr || l > o.top_layer() {
                assert(s.links(i, l) == o.links(i, l));
                assert(t < n) by {
                    assert(o.links(i, l)[j] == s.links(i, l)[j]);
                }
                assert(s.data@[i] == o.data@[i] && s.data@[t] == o.data@[t]);
            } else {
                assert(s.backlinked(&o, n, l));
                assert(s.backlinks_pruned(&o, f, n, l));
                if has_index(s.links(n, l), i) {
                    let j0 = choose|j0: int| 0 <= j0 < s.links(n, l).len() && #[trigger] s.links(n, l)[j0].node_index == i;
                    let x = s.links(n, l)[j0];
                    assert(s.backlink_done(&o, n, l, x));
                    if o.links(i, l).len() + 1 < o.max_conn(l) {
                        let ol = o.links(i, l);
                        assert(s.links(i, l) == ol.push(Link { node_index: n as usize, distance: x.distance }));
                        if j < ol.len() {
                            assert(s.links(i, l)[j] == ol[j]);
                            assert(ol[j].node_index < n);
                        } else {
                            assert(x.distance == dist_of(f, vec, o.vectors()[i]));
                            assert(dist_of(f, vec, o.data@[i]) == dist_of(f, o.data@[i], vec));
                            assert(s.links(i, l)[j] == Link { node_index: n as usize, distance: x.distance });
                            assert(s.data@[t] == vec && s.data@[i] == o.data@[i]);
                        }
                    } else {
                        assert(s.pruned_backlink(&o, f, n, l, j0));
                        let sv = choose|sv: Self|
                            #[trigger] sv.backlink_view(&s, &o, n, l, j0) && sv.selection(
                                o.vectors()[i],
                                l,
                                o.links(i, l).push(Link { node_index: n as usize, distance: x.distance }),
                                true,
                                true,
                                f,
                                s.links(i, l),
                            );
                        assert(s.links(i, l)[j].distance == dist_of(f, o.vectors()[i], sv.data@[t]));
                        assert(sv.data@ == s.data@);
                        assert(o.vectors()[i] == s.data@[i]);
                    }
                } else {
                    assert(s.links(i, l) == o.links(i, l));
                    assert(t < n) by {
                        assert(o.links(i, l)[j] == s.links(i, l)[j]);
                    }
                    assert(s.data@[i] == o.data@[i] && s.data@[t] == o.data@[t]);
                }
            }
        }
    }

    /// Inserts `vec` as a new node that lives on layers `0..=insert_lyr`
    /// (the layer is drawn by the caller).
    ///
    /// The walk descends from the entry point to layer `insert_lyr` through
    /// layer walks of width 1; from there down, on each layer, the new node is
    /// linked to the neighbours that selection chooses among the result of a
    /// layer walk of width `ef_construction`, and each of them links back to
    /// it. A node higher than the top layer becomes the entry point.
    #[verifier::rlimit(80)]
    #[verifier::spinoff_prover]
    pub fn insert<F: Fn(&V, &V) -> u32>(&mut self, vec: V, insert_lyr: usize, dist: &F)
        requires
            old(self).wf(),
            is_distance(*dist),
            insert_lyr < usize::MAX,
            old(self).size() < usize::MAX,
        ensures
            final(self).wf(),
            final(self).size() == old(self).size() + 1,
            final(self).vectors() == old(self).vectors().push(vec),
            final(self).params() == old(self).params(),
            final(self).levels(old(self).size() as int) == insert_lyr + 1,
            forall|i: int| 0 <= i < old(self).size() ==> #[trigger] final(self).levels(i) == old(self).levels(i),
            forall|l: int, j: int|
                0 <= l <= insert_lyr && 0 <= j < final(self).links(old(self).size() as int, l).len()
                    ==> #[trigger] final(self).links(old(self).size() as int, l)[j].node_index < old(self).size(),
            old(self).size() == 0 ==> final(self).entry() == 0 && final(self).top_layer() == insert_lyr,
            old(self).size() > 0 && insert_lyr > old(self).top_layer() ==> final(self).entry() == old(self).size()
                && final(self).top_layer() == insert_lyr,
            old(self).size() > 0 && insert_lyr <= old(self).top_layer() ==> final(self).entry() == old(self).entry()
                && final(self).top_layer() == old(self).top_layer(),
            forall|l: int, j: int|
                0 <= l <= insert_lyr && 0 <= j < final(self).links(old(self).size() as int, l).len()
                    ==> (#[trigger] final(self).links(old(self).size() as int, l)[j]).distance == dist_of(
                    *dist,
                    vec,
                    old(self).vectors()[final(self).links(old(self).size() as int, l)[j].node_index as int],
                ),
            forall|l: int|
                0 <= l <= insert_lyr && old(self).size() > 0 && l <= old(self).top_layer() ==> {
                    &&& #[trigger] final(self).links(old(self).size() as int, l).len() > 0
                    &&& final(self).backlinked(old(self), old(self).size() as int, l)
                    &&& final(self).backlinks_pruned(old(self), *dist, old(self).size() as int, l)
                    &&& old(self).chosen(vec, l, *dist, final(self).links(old(self).size() as int, l))
                },
            is_symmetric(*dist) && old(self).exact_distances(*dist) ==> final(self).exact_distances(*dist),
            final(self).inserted(old(self), vec, insert_lyr as int, *dist),
            old(self).size() > 0 ==> old(self).chosen_after_descent(
                vec,
                old(self).shared_top(insert_lyr as int),
                *dist,
                final(self).links(old(self).size() as int, old(self).shared_top(insert_lyr as int)),
            ),
            forall|l: int, x: Link|
                0 <= l < insert_lyr && old(self).size() > 0 && l < old(self).top_layer()
                    && is_least(final(self).links(old(self).size() as int, l + 1), x)
                    ==> #[trigger] old(self).chosen_from(vec, l, x.node_index as int, *dist, final(self).links(old(self).size() as int, l)),
            forall|l: int|
                0 <= l <= insert_lyr && (old(self).size() == 0 || l > old(self).top_layer())
                    ==> #[trigger] final(self).links(old(self).size() as int, l).len() == 0,
            forall|i: int, l: int|
                0 <= i < old(self).size() && 0 <= l < old(self).levels(i) && (l > insert_lyr || l > old(self).top_layer())
                    ==> #[trigger] final(self).links(i, l) == old(self).links(i, l),
    {
        let insert_idx = self.data.len();
        let q = vec;
        self.data.push(vec);
        let mut layers: Vec<Vec<Link>> = Vec::new();
        let mut l: usize = 0;
        while l <= insert_lyr
            invariant
                l <= insert_lyr + 1,
                insert_lyr < usize::MAX,
                layers@.len() == l,
                forall|k: int| 0 <= k < l ==> (#[trigger] layers@[k])@.len() == 0,
            decreases insert_lyr + 1 - l,
        {
            let max_connections = self.max_connections(l);
            layers.push(Vec::with_capacity(max_connections));
            l += 1;
        }
        self.nodes.push(Node { layers, epoch: 0 });
        let ghost s_push = *self;
        proof {
            old(self).lemma_push_node(s_push, vec, insert_lyr as int);
        }
        if insert_idx == 0 {
            self.entry_point = 0;
            self.max_layer = insert_lyr;
            proof {
                s_push.lemma_first_node(*self);
                assert forall|ll: int, j: int|
                    0 <= ll <= insert_lyr && 0 <= j < self.links(0, ll).len()
                        implies #[trigger] self.links(0, ll)[j].node_index < 0 by {
                    assert(self.links(0, ll) == s_push.links(0, ll));
                }
                assert forall|ll: int| 0 <= ll <= insert_lyr implies #[trigger] self.links(0, ll).len() == 0 by {
                    assert(self.links(0, ll) == s_push.links(0, ll));
                }
            }
            return;
        }
        let mut ep = self.entry_point;
        let mut lyr = self.max_layer;
        while lyr > insert_lyr
            invariant
                self.wf_core(),
                is_distance(*dist),
                self.same_graph(&s_push),
                insert_idx == old(self).size(),
                self.size() == insert_idx + 1,
                ep < insert_idx,
                lyr < self.levels(ep as int),
                lyr <= self.max_layer,
                self.levels(insert_idx as int) == insert_lyr + 1,
                self.max_layer == old(self).max_layer,
                lyr <= old(self).max_layer,
                lyr < old(self).max_layer ==> lyr >= insert_lyr,
                old(self).wf(),
                old(self).size() < usize::MAX,
                q == vec,
                s_push.data@ == old(self).data@.push(vec),
                forall|i: int| 0 <= i < old(self).size() ==> #[trigger] s_push.levels(i) == old(self).levels(i),
                forall|i: int, l: int| 0 <= i < old(self).size() ==> #[trigger] s_push.links(i, l) == old(self).links(i, l),
                s_push.levels(insert_idx as int) == insert_lyr + 1,
                ep == old(self).descent(q, lyr as int, *dist),
            decreases lyr,
        {
            let ghost pre = *self;
            let res = self.search_layer(&q, ep, lyr, 1, dist);
            proof {
                assert(self.layer_result(q, ep as int, lyr as int, 1, *dist, res@));
                let t = res@[0].node_index;
                assert(lyr < self.levels(t as int));
                self.lemma_same_graph(&s_push);
                assert forall|i: int| 0 <= i < old(self).size() implies #[trigger] self.levels(i) == old(self).levels(i) by {
                    assert(self.levels(i) == s_push.levels(i));
                }
                assert forall|i: int| 0 <= i < old(self).size() && lyr < old(self).levels(i)
                    implies #[trigger] self.links(i, lyr as int) == old(self).links(i, lyr as int) by {
                    assert(self.links(i, lyr as int) == s_push.links(i, lyr as int));
                }
                assert(self.levels(insert_idx as int) == insert_lyr + 1);
                assert(self.levels(ep as int) == old(self).levels(ep as int));
                Self::lemma_walk_before(*self, *old(self), q, lyr as int, 1, *dist, ep as int, res@);
                pre.lemma_same_graph(&s_push);
                assert forall|i: int| 0 <= i < old(self).size() implies #[trigger] pre.data@[i] == old(self).data@[i] by {
                    assert(pre.data@ == s_push.data@);
                }
                assert forall|i: int| 0 <= i < old(self).size() implies #[trigger] pre.levels(i) == old(self).levels(i) by {
                    assert(pre.levels(i) == s_push.levels(i));
                }
                assert forall|i: int| 0 <= i < old(self).size() && lyr < old(self).levels(i)
                    implies #[trigger] pre.links(i, lyr as int) == old(self).links(i, lyr as int) by {
                    assert(pre.links(i, lyr as int) == s_push.links(i, lyr as int));
                }
                Self::lemma_walk_agrees_before(pre, *old(self), q, ep as int, lyr as int, 1, *dist);
                assert(res@ == old(self).walk(q, ep as int, (lyr - 1) + 1, 1, *dist));
                assert(t == old(self).descent(q, lyr - 1, *dist));
            }
            ep = res[0].node_index;
            lyr -= 1;
        }
        let top = lyr;
        let mut cnt = top + 1;
        let efc = self.ef_construction;
        proof {
            self.lemma_same_graph(&s_push);
            assert(s_push.no_link_to(insert_idx as int, insert_lyr + 1));
            assert(self.no_link_to(insert_idx as int, cnt as int)) by {
                assert forall|i: int, ll: int, j: int|
                    0 <= i < self.size() && 0 <= ll < cnt && ll < self.levels(i) && 0 <= j < self.links(i, ll).len()
                        implies #[trigger] self.links(i, ll)[j].node_index != insert_idx by {
                    assert(self.links(i, ll) == s_push.links(i, ll));
                    assert(s_push.links(i, ll)[j].node_index != insert_idx);
                }
            }
            assert forall|ll: int| 0 <= ll < cnt implies #[trigger] self.links(insert_idx as int, ll).len() == 0 by {
                assert(self.links(insert_idx as int, ll) == s_push.links(insert_idx as int, ll));
            }
            assert forall|ll: int, j: int|
                0 <= ll <= insert_lyr && 0 <= j < self.links(insert_idx as int, ll).len()
                    implies #[trigger] self.links(insert_idx as int, ll)[j].node_index < insert_idx by {
                assert(self.links(insert_idx as int, ll) == s_push.links(insert_idx as int, ll));
            }
        }
        while cnt > 0
            invariant
                self.wf_core(),
                is_distance(*dist),
                self.same_frame(&s_push),
                insert_idx == old(self).size(),
                self.size() == insert_idx + 1,
                top <= insert_lyr,
                top <= self.max_layer,
                0 <= cnt <= top + 1,
                cnt > 0 ==> ep < insert_idx && cnt - 1 < self.levels(ep as int),
                self.levels(insert_idx as int) == insert_lyr + 1,
                self.no_link_to(insert_idx as int, cnt as int),
                forall|l: int| 0 <= l < cnt ==> #[trigger] self.links(insert_idx as int, l).len() == 0,
                forall|l: int, j: int|
                    0 <= l <= insert_lyr && 0 <= j < self.links(insert_idx as int, l).len()
                        ==> #[trigger] self.links(insert_idx as int, l)[j].node_index < insert_idx,
                efc == self.ef_construction,
                self.data@ == old(self).data@.push(vec),
                self.M == old(self).M,
                self.M0 == old(self).M0,
                forall|l: int, j: int|
                    0 <= l <= insert_lyr && 0 <= j < self.links(insert_idx as int, l).len()
                        ==> (#[trigger] self.links(insert_idx as int, l)[j]).distance == dist_of(
                        *dist,
                        q,
                        self.data@[self.links(insert_idx as int, l)[j].node_index as int],
                    ),
                forall|l: int| cnt <= l <= top ==> {
                    &&& #[trigger] self.links(insert_idx as int, l).len() > 0
                    &&& self.backlinked(old(self), insert_idx as int, l)
                    &&& self.backlinks_pruned(old(self), *dist, insert_idx as int, l)
                    &&& old(self).chosen(q, l, *dist, self.links(insert_idx as int, l))
                },
                old(self).wf(),
                old(self).size() < usize::MAX,
                q == vec,
                self.ef_construction == old(self).ef_construction,
                cnt <= top ==> forall|x: Link| #[trigger] is_least(self.links(insert_idx as int, cnt as int), x) ==> x.node_index == ep,
                cnt == top + 1 ==> ep == old(self).descent(q, top as int, *dist),
                cnt <= top ==> old(self).chosen_after_descent(q, top as int, *dist, self.links(insert_idx as int, top as int)),
                forall|ll: int, x: Link|
                    cnt <= ll < top && is_least(self.links(insert_idx as int, ll + 1), x)
                        ==> #[trigger] old(self).chosen_from(q, ll, x.node_index as int, *dist, self.links(insert_idx as int, ll)),
                forall|l: int| top < l <= insert_lyr ==> #[trigger] self.links(insert_idx as int, l).len() == 0,
                forall|i: int, l: int|
                    0 <= i < insert_idx && 0 <= l < old(self).levels(i) && (l < cnt || l > top)
                        ==> #[trigger] self.links(i, l) == old(self).links(i, l),
                forall|i: int| 0 <= i < insert_idx ==> #[trigger] self.levels(i) == old(self).levels(i),
                top == (if insert_lyr < old(self).max_layer { insert_lyr } else { old(self).max_layer }),
            decreases cnt,
        {
            let l = cnt - 1;
            let ghost s1 = *self;
            let candidates = self.search_layer(&q, ep, l, efc, dist);
            let ghost s2 = *self;
            proof {
                s2.lemma_same_graph(&s1);
                assert forall|k: int| 0 <= k < candidates@.len() implies {
                    let t = #[trigger] candidates@[k].node_index;
                    t < s2.size() && l < s2.levels(t as int)
                } by {
                    assert(s2.layer_result(q, ep as int, l as int, efc as int, *dist, candidates@));
                }
            }
            let neighs = self.select_neighbors(&q, l, candidates, true, true, dist);
            let ghost s3 = *self;
            proof {
                s3.lemma_same_graph(&s1);
                s2.lemma_same_graph(&s1);
                Self::lemma_new_node_neighbours(s1, s2, s3, q, insert_idx as int, ep as int, l as int, efc as int, *dist, candidates@, neighs@);
                assert forall|i: int| 0 <= i < old(self).size() && l < old(self).levels(i) implies #[trigger] s2.links(i, l as int)
                    == old(self).links(i, l as int) by {
                    assert(s2.links(i, l as int) == s1.links(i, l as int));
                }
                assert forall|i: int| 0 <= i < old(self).size() implies #[trigger] s2.levels(i) == old(self).levels(i) by {
                    assert(s2.levels(i) == s1.levels(i));
                }
                assert(s2.links(insert_idx as int, l as int) == s1.links(insert_idx as int, l as int));
                assert(s2.data@ == s1.data@);
                s2.lemma_walk_graph(&s1);
                assert(candidates@ == s2.walk(q, ep as int, l as int, s2.ef_construction as int, *dist));
                Self::lemma_chosen_before(s2, s3, *old(self), q, l as int, *dist, ep as int, candidates@, neighs@);
            }
            let nearest_ep = Self::nearest(&neighs);
            self.link_new_node(insert_idx, l, neighs, dist);
            proof {
                assert(self.links(insert_idx as int, l as int).contains(nearest_ep));
                let k = choose|k: int| 0 <= k < self.links(insert_idx as int, l as int).len()
                    && self.links(insert_idx as int, l as int)[k] == nearest_ep;
                assert(nearest_ep.node_index < insert_idx);
                assert(l < self.levels(nearest_ep.node_index as int));
                assert(self.no_link_to(insert_idx as int, l as int)) by {
                    assert forall|i: int, ll: int, j: int|
                        0 <= i < self.size() && 0 <= ll < l && ll < self.levels(i) && 0 <= j < self.links(i, ll).len()
                            implies #[trigger] self.links(i, ll)[j].node_index != insert_idx by {
                        assert(self.links(i, ll) == s3.links(i, ll));
                        assert(s3.links(i, ll) == s1.links(i, ll));
                    }
                }
                assert forall|ll: int| 0 <= ll < l implies #[trigger] self.links(insert_idx as int, ll).len() == 0 by {
                    assert(self.links(insert_idx as int, ll) == s3.links(insert_idx as int, ll));
                }
                assert forall|ll: int, j: int|
                    0 <= ll <= insert_lyr && 0 <= j < self.links(insert_idx as int, ll).len()
                        implies #[trigger] self.links(insert_idx as int, ll)[j].node_index < insert_idx by {
                    if ll != l {
                        assert(self.links(insert_idx as int, ll) == s3.links(insert_idx as int, ll));
                    }
                }
                assert forall|ll: int, j: int|
                    0 <= ll <= insert_lyr && 0 <= j < self.links(insert_idx as int, ll).len()
                        implies (#[trigger] self.links(insert_idx as int, ll)[j]).distance == dist_of(
                        *dist,
                        q,
                        self.data@[self.links(insert_idx as int, ll)[j].node_index as int],
                    ) by {
                    if ll != l {
                        assert(self.links(insert_idx as int, ll) == s3.links(insert_idx as int, ll));
                        assert(s3.links(insert_idx as int, ll) == s1.links(insert_idx as int, ll));
                    } else {
                        assert(self.links(insert_idx as int, ll)[j] == neighs@[j]);
                    }
                }
                assert forall|i: int| 0 <= i < insert_idx && l < old(self).levels(i) implies #[trigger] s3.links(i, l as int) == old(self).links(i, l as int) by {
                    assert(s3.links(i, l as int) == s1.links(i, l as int));
                }
                Self::lemma_backlinked_base(*self, s3, *old(self), insert_idx as int, l as int);
                assert forall|i: int| 0 <= i < insert_idx implies #[trigger] s3.data@[i] == old(self).data@[i] by {
                    assert(s3.data@ == s1.data@);
                }
                Self::lemma_pruned_base(*self, s3, *old(self), *dist, insert_idx as int, l as int);
                assert forall|ll: int| cnt - 1 <= ll <= top implies {
                    &&& #[trigger] self.links(insert_idx as int, ll).len() > 0
                    &&& self.backlinked(old(self), insert_idx as int, ll)
                    &&& self.backlinks_pruned(old(self), *dist, insert_idx as int, ll)
                    &&& old(self).chosen(q, ll, *dist, self.links(insert_idx as int, ll))
                } by {
                    if ll != l {
                        assert forall|i: int| 0 <= i < self.size() && ll < self.levels(i) implies #[trigger] self.links(i, ll) == s1.links(i, ll) by {
                            assert(self.links(i, ll) == s3.links(i, ll));
                            assert(s3.links(i, ll) == s1.links(i, ll));
                        }
                        Self::lemma_backlinked_frame(*self, s1, *old(self), insert_idx as int, ll);
                        Self::lemma_pruned_frame(*self, s1, *old(self), *dist, insert_idx as int, ll);
                    }
                }
                assert forall|ll: int| top < ll <= insert_lyr implies #[trigger] self.links(insert_idx as int, ll).len() == 0 by {
                    assert(self.links(insert_idx as int, ll) == s3.links(insert_idx as int, ll));
                    assert(s3.links(insert_idx as int, ll) == s1.links(insert_idx as int, ll));
                }
                assert forall|i: int, ll: int|
                    0 <= i < insert_idx && 0 <= ll < old(self).levels(i) && (ll < cnt - 1 || ll > top)
                        implies #[trigger] self.links(i, ll) == old(self).links(i, ll) by {
                    assert(self.links(i, ll) == s3.links(i, ll));
                    assert(s3.links(i, ll) == s1.links(i, ll));
                }
            }
            ep = nearest_ep.node_index;
            cnt -= 1;
        }
        let ghost s_loop = *self;
        if insert_lyr > self.max_layer {
            self.max_layer = insert_lyr;
            self.entry_point = insert_idx;
        }
        proof {
            Self::lemma_insert_done(*old(self), s_push, s_loop, *self, insert_lyr as int);
            assert forall|ll: int, j: int|
                0 <= ll <= insert_lyr && 0 <= j < self.links(insert_idx as int, ll).len()
                    implies #[trigger] self.links(insert_idx as int, ll)[j].node_index < insert_idx by {
                assert(self.links(insert_idx as int, ll) == s_loop.links(insert_idx as int, ll));
            }
            assert forall|ll: int, j: int|
                0 <= ll <= insert_lyr && 0 <= j < self.links(insert_idx as int, ll).len()
                    implies (#[trigger] self.links(insert_idx as int, ll)[j]).distance == dist_of(
                    *dist,
                    vec,
                    old(self).vectors()[self.links(insert_idx as int, ll)[j].node_index as int],
                ) by {
                assert(self.links(insert_idx as int, ll) == s_loop.links(insert_idx as int, ll));
                let t = self.links(insert_idx as int, ll)[j].node_index as int;
                assert(s_loop.data@[t] == old(self).data@[t]);
            }
            assert forall|ll: int|
                0 <= ll <= insert_lyr && old(self).size() > 0 && ll <= old(self).top_layer() implies {
                    &&& #[trigger] self.links(old(self).size() as int, ll).len() > 0
                    &&& self.backlinked(old(self), old(self).size() as int, ll)
                    &&& self.backlinks_pruned(old(self), *dist, old(self).size() as int, ll)
                    &&& old(self).chosen(vec, ll, *dist, self.links(old(self).size() as int, ll))
                } by {
                assert(self.links(insert_idx as int, ll) == s_loop.links(insert_idx as int, ll));
                assert forall|i: int| 0 <= i < self.size() && ll < self.levels(i) implies #[trigger] self.links(i, ll) == s_loop.links(i, ll) by {
                }
                Self::lemma_backlinked_frame(*self, s_loop, *old(self), insert_idx as int, ll);
                Self::lemma_pruned_frame(*self, s_loop, *old(self), *dist, insert_idx as int, ll);
            }
            assert forall|ll: int, x: Link|
                0 <= ll < insert_lyr && old(self).size() > 0 && ll < old(self).top_layer()
                    && is_least(self.links(old(self).size() as int, ll + 1), x)
                    implies #[trigger] old(self).chosen_from(vec, ll, x.node_index as int, *dist, self.links(old(self).size() as int, ll)) by {
                assert(self.links(insert_idx as int, ll) == s_loop.links(insert_idx as int, ll));
                assert(self.links(insert_idx as int, ll + 1) == s_loop.links(insert_idx as int, ll + 1));
            }
            assert forall|ll: int|
                0 <= ll <= insert_lyr && (old(self).size() == 0 || ll > old(self).top_layer())
                    implies #[trigger] self.links(old(self).size() as int, ll).len() == 0 by {
                assert(self.links(insert_idx as int, ll) == s_loop.links(insert_idx as int, ll));
            }
            assert forall|i: int, ll: int|
                0 <= i < old(self).size() && 0 <= ll < old(self).levels(i) && (ll > insert_lyr || ll > old(self).top_layer())
                    implies #[trigger] self.links(i, ll) == old(self).links(i, ll) by {
                assert(self.links(i, ll) == s_loop.links(i, ll));
            }
            assert(self.inserted(old(self), vec, insert_lyr as int, *dist));
            if is_symmetric(*dist) && old(self).exact_distances(*dist) {
                assert forall|ll: int|
                    0 <= ll <= insert_lyr && old(self).size() > 0 && ll <= old(self).top_layer() implies {
                        &&& #[trigger] self.backlinked(old(self), old(self).size() as int, ll)
                        &&& self.backlinks_pruned(old(self), *dist, old(self).size() as int, ll)
                    } by {
                    assert(self.links(old(self).size() as int, ll).len() > 0);
                }
                Self::lemma_exact_after_insert(*self, *old(self), vec, insert_lyr as int, *dist);
            }
        }
    }

    /// The state right after the new node is appended.
    proof fn lemma_push_node(&self, s: Self, vec: V, insert_lyr: int)
        requires
            self.wf(),
            0 <= insert_lyr,
            s.M == self.M,
            s.M0 == self.M0,
            s.ef_construction == self.ef_construction,
            s.ef_search == self.ef_search,
            s.entry_point == self.entry_point,
            s.max_layer == self.max_layer,
            s.epoch == self.epoch,
            s.data@ == self.data@.push(vec),
            s.nodes@.len() == self.nodes@.len() + 1,
            forall|i: int| 0 <= i < self.size() ==> #[trigger] s.nodes@[i] == self.nodes@[i],
            s.nodes@[self.size() as int].epoch == 0,
            s.nodes@[self.size() as int].layers@.len() == insert_lyr + 1,
            forall|k: int| 0 <= k <= insert_lyr ==> (#[trigger] s.nodes@[self.size() as int].layers@[k])@.len() == 0,
        ensures
            self.size() > 0 ==> s.wf_core(),
            forall|b: int| #[trigger] s.no_link_to(self.size() as int, b),
            forall|i: int| 0 <= i < self.size() ==> #[trigger] s.levels(i) == self.levels(i),
            forall|i: int, l: int| 0 <= i < self.size() ==> #[trigger] s.links(i, l) == self.links(i, l),
            s.levels(self.size() as int) == insert_lyr + 1,
            forall|l: int| 0 <= l <= insert_lyr ==> #[trigger] s.links(self.size() as int, l).len() == 0,
    {
        let n = self.size() as int;
        assert forall|b: int| #[trigger] s.no_link_to(n, b) by {
            assert forall|i: int, l: int, j: int|
                0 <= i < s.size() && 0 <= l < b && l < s.levels(i) && 0 <= j < s.links(i, l).len()
                    implies #[trigger] s.links(i, l)[j].node_index != n by {
                if i < n {
                    assert(s.links(i, l) == self.links(i, l));
                    assert(self.links(i, l)[j].node_index < n);
                }
            }
        }
        if n > 0 {
            assert(s.links_ok()) by {
                assert forall|i: int, l: int, j: int|
                    0 <= i < s.size() && 0 <= l < s.levels(i) && 0 <= j < s.links(i, l).len()
                        implies {
                    let t = #[trigger] s.links(i, l)[j].node_index;
                    &&& t < s.size()
                    &&& l < s.levels(t as int)
                } by {
                    if i < n {
                        assert(s.links(i, l) == self.links(i, l));
                        let t = self.links(i, l)[j].node_index as int;
                        assert(s.nodes@[t] == self.nodes@[t]);
                    }
                }
            }
            assert(s.lists_ok()) by {
                assert forall|i: int, l: int| 0 <= i < s.size() && 0 <= l < s.levels(i) implies {
                    &&& #[trigger] s.links(i, l).len() <= s.max_conn(l)
                    &&& distinct_targets(s.links(i, l))
                } by {
                    if i < n {
                        assert(s.links(i, l) == self.links(i, l));
                    }
                }
            }
            assert(s.nodes@[self.entry_point as int] == self.nodes@[self.entry_point as int]);
            assert forall|i: int| 0 <= i < s.size() implies #[trigger] s.levels(i) >= 1 by {
                if i < n {
                    assert(s.levels(i) == self.levels(i));
                }
            }
            assert forall|i: int| 0 <= i < s.size() implies #[trigger] s.nodes@[i].epoch <= s.epoch by {
                if i < n {
                    assert(s.nodes@[i] == self.nodes@[i]);
                }
            }
        }
    }

    /// The first node is the entry point, and its height the top layer.
    proof fn lemma_first_node(&self, s: Self)
        requires
            self.size() == 1,
            self.data@.len() == 1,
            self.M > 1,
            self.M0 > 0,
            self.ef_construction > 0,
            self.ef_search > 0,
            self.nodes@[0].epoch <= self.epoch,
            self.levels(0) >= 1,
            forall|l: int| 0 <= l < self.levels(0) ==> #[trigger] self.links(0, l).len() == 0,
            s.M == self.M,
            s.M0 == self.M0,
            s.ef_construction == self.ef_construction,
            s.ef_search == self.ef_search,
            s.epoch == self.epoch,
            s.data@ == self.data@,
            s.nodes@ == self.nodes@,
            s.entry_point == 0,
            s.max_layer + 1 == self.levels(0),
        ensures
            s.wf(),
    {
        assert(s.links_ok()) by {
            assert forall|i: int, l: int, j: int|
                0 <= i < s.size() && 0 <= l < s.levels(i) && 0 <= j < s.links(i, l).len()
                    implies {
                let t = #[trigger] s.links(i, l)[j].node_index;
                &&& t < s.size()
                &&& l < s.levels(t as int)
            } by {
                assert(s.links(i, l) == self.links(i, l));
            }
        }
        assert(s.lists_ok()) by {
            assert forall|i: int, l: int| 0 <= i < s.size() && 0 <= l < s.levels(i) implies {
                &&& #[trigger] s.links(i, l).len() <= s.max_conn(l)
                &&& distinct_targets(s.links(i, l))
            } by {
                assert(s.links(i, l) == self.links(i, l));
            }
        }
    }

    /// The neighbours chosen for the new node `n` on layer `l` are nodes of
    /// that layer other than `n`, since no link of the layer points to `n`.
    proof fn lemma_new_node_neighbours<F: Fn(&V, &V) -> u32>(
        s1: Self,
        s2: Self,
        s3: Self,
        q: V,
        n: int,
        ep: int,
        l: int,
        efc: int,
        f: F,
        cands: Seq<Link>,
        neighs: Seq<Link>,
    )
        requires
            s1.wf_core(),
            s2.same_graph(&s1),
            s3.same_graph(&s1),
            0 <= ep < n < s1.size(),
            0 <= l,
            s1.no_link_to(n, l + 1),
            forall|ll: int| 0 <= ll <= l ==> #[trigger] s1.links(n, ll).len() == 0,
            s2.layer_result(q, ep, l, efc, f, cands),
            s3.selection(q, l, cands, true, true, f, neighs),
        ensures
            s3.no_link_to(n, l + 1),
            forall|ll: int| 0 <= ll <= l ==> #[trigger] s3.links(n, ll).len() == 0,
            neighs.len() > 0,
            neighs.len() <= s3.max_conn(l),
            distinct_targets(neighs),
            forall|k: int| 0 <= k < neighs.len() ==> {
                let t = #[trigger] neighs[k].node_index;
                &&& t < s3.size()
                &&& t != n
                &&& l < s3.levels(t as int)
            },
    {
        s3.lemma_same_graph(&s1);
        s2.lemma_same_graph(&s1);
        assert(s3.no_link_to(n, l + 1)) by {
            assert forall|i: int, ll: int, j: int|
                0 <= i < s3.size() && 0 <= ll < l + 1 && ll < s3.levels(i) && 0 <= j < s3.links(i, ll).len()
                    implies #[trigger] s3.links(i, ll)[j].node_index != n by {
                assert(s3.links(i, ll) == s1.links(i, ll));
            }
        }
        assert forall|k: int| 0 <= k < neighs.len() implies #[trigger] neighs[k].node_index != n by {
            let t = neighs[k].node_index as int;
            assert(s3.from_pool(cands, l, true, t));
            if has_index(cands, t) {
                let c = choose|c: int| 0 <= c < cands.len() && #[trigger] cands[c].node_index == t;
                assert(t == ep || s2.is_target(t, l));
                if t != ep {
                    let (i, j) = choose|i: int, j: int|
                        0 <= i < s2.size() && 0 <= l < s2.levels(i) && 0 <= j < s2.links(i, l).len()
                            && #[trigger] s2.links(i, l)[j].node_index == t;
                    assert(s2.links(i, l) == s1.links(i, l));
                    assert(s1.links(i, l)[j].node_index != n);
                }
            } else {
                let (c, j) = choose|c: int, j: int|
                    0 <= c < cands.len() && cands[c].node_index < s3.size()
                        && 0 <= j < s3.links(cands[c].node_index as int, l).len()
                        && #[trigger] s3.links(cands[c].node_index as int, l)[j].node_index == t;
                let i = cands[c].node_index as int;
                assert(l < s2.levels(i));
                assert(s3.links(i, l) == s1.links(i, l));
                assert(s1.links(i, l)[j].node_index != n);
            }
        }
        assert(cands.len() > 0);
    }

    /// `r` is what neighbour selection, with the pool extended and pruned
    /// links kept, chooses for `q` on layer `l` among the links that a walk
    /// of that layer from one of its nodes, with width `ef_construction`,
    /// returns.
    pub closed spec fn chosen<F: Fn(&V, &V) -> u32>(&self, q: V, l: int, f: F, r: Seq<Link>) -> bool {
        exists|ep: int| 0 <= ep < self.size() && l < self.levels(ep) && #[trigger] self.chosen_from(q, l, ep, f, r)
    }

    /// `r` is chosen, as `chosen_from` says, from where the descent towards
    /// `q` down to layer `l` ends.
    pub closed spec fn chosen_after_descent<F: Fn(&V, &V) -> u32>(&self, q: V, l: int, f: F, r: Seq<Link>) -> bool {
        self.chosen_from(q, l, self.descent(q, l, f), f, r)
    }

    /// The top layer that a node living on layers `0..=lyr` shares with the
    /// index.
    pub closed spec fn shared_top(&self, lyr: int) -> int {
        if lyr < self.top_layer() {
            lyr
        } else {
            self.top_layer() as int
        }
    }

    /// `r` is what neighbour selection, with the pool extended and pruned
    /// links kept, chooses for `q` on layer `l` among the links that the walk
    /// of that layer from node `ep`, with width `ef_construction`, returns.
    pub closed spec fn chosen_from<F: Fn(&V, &V) -> u32>(&self, q: V, l: int, ep: int, f: F, r: Seq<Link>) -> bool {
        let w = self.walk(q, ep, l, self.ef_construction as int, f);
        &&& forall|k: int| 0 <= k < w.len() ==> (#[trigger] w[k]).node_index < self.size() && l < self.levels(
            w[k].node_index as int,
        )
        &&& self.selection(q, l, w, true, true, f, r)
    }

    /// A walk of layer `l` of `a`, the index with the new node for `q`
    /// appended and no link from it on that layer, is a walk of `o`, the
    /// index before the insertion.
    proof fn lemma_walk_before<F: Fn(&V, &V) -> u32>(
        a: Self,
        o: Self,
        q: V,
        l: int,
        ef: int,
        f: F,
        ep: int,
        cands: Seq<Link>,
    )
        requires
            o.wf_core(),
            a.size() == o.size() + 1,
            a.data@ == o.data@.push(q),
            forall|i: int| 0 <= i < o.size() ==> #[trigger] a.levels(i) == o.levels(i),
            forall|i: int| 0 <= i < o.size() && l < o.levels(i) ==> #[trigger] a.links(i, l) == o.links(i, l),
            l >= a.levels(o.size() as int) || a.links(o.size() as int, l).len() == 0,
            0 <= ep < o.size(),
            0 <= l < o.levels(ep),
            a.layer_result(q, ep, l, ef, f, cands),
        ensures
            o.layer_result(q, ep, l, ef, f, cands),
    {
        let n = o.size() as int;
        assert forall|i: int| 0 <= i < o.size() implies #[trigger] a.data@[i] == o.data@[i] by {}
        // Whatever a node of the old index links to on layer `l` is an old node.
        assert forall|i: int, j: int|
            0 <= i < o.size() && l < o.levels(i) && 0 <= j < a.links(i, l).len()
                implies (#[trigger] a.links(i, l)[j]).node_index < o.size() && l < o.levels(a.links(i, l)[j].node_index as int) by {
            assert(a.links(i, l) == o.links(i, l));
            assert(o.links(i, l)[j].node_index == a.links(i, l)[j].node_index);
        }
        assert forall|t: int| #[trigger] a.is_target(t, l) implies t < o.size() && o.is_target(t, l) by {
            let (i, j) = choose|i: int, j: int|
                0 <= i < a.size() && 0 <= l < a.levels(i) && 0 <= j < a.links(i, l).len()
                    && #[trigger] a.links(i, l)[j].node_index == t;
            assert(i != n);
            assert(a.links(i, l) == o.links(i, l));
            assert(o.links(i, l)[j].node_index == t);
        }
        // The walk.
        assert forall|k: int| 0 <= k < cands.len() implies {
            let t = #[trigger] cands[k].node_index;
            &&& t < o.size()
            &&& l < o.levels(t as int)
            &&& cands[k].distance == dist_of(f, q, o.data@[t as int])
            &&& (t == ep || o.is_target(t as int, l))
        } by {
            let t = cands[k].node_index as int;
            if t != ep {
                assert(a.is_target(t, l));
            }
        }
        assert(o.covered(q, l, ef, f, cands, ep));
        assert forall|k: int, j: int|
            0 <= k < cands.len() && 0 <= j < o.links(cands[k].node_index as int, l).len()
                implies o.covered(q, l, ef, f, cands, #[trigger] o.links(cands[k].node_index as int, l)[j].node_index as int) by {
            let c = cands[k].node_index as int;
            assert(a.links(c, l) == o.links(c, l));
            assert(a.covered(q, l, ef, f, cands, a.links(c, l)[j].node_index as int));
            assert(o.links(c, l)[j].node_index < o.size());
        }
    }

    /// A walk and a selection on layer `l` of `a`, the index with the new
    /// node for `q` appended and no link to or from it on that layer yet, are
    /// a walk and a selection on `o`, the index before the insertion.
    proof fn lemma_chosen_before<F: Fn(&V, &V) -> u32>(
        a: Self,
        b: Self,
        o: Self,
        q: V,
        l: int,
        f: F,
        ep: int,
        cands: Seq<Link>,
        r: Seq<Link>,
    )
        requires
            o.wf_core(),
            a.size() == o.size() + 1,
            a.data@ == o.data@.push(q),
            a.M == o.M,
            a.M0 == o.M0,
            a.ef_construction == o.ef_construction,
            forall|i: int| 0 <= i < o.size() ==> #[trigger] a.levels(i) == o.levels(i),
            forall|i: int| 0 <= i < o.size() && l < o.levels(i) ==> #[trigger] a.links(i, l) == o.links(i, l),
            a.links(o.size() as int, l).len() == 0,
            0 <= ep < o.size(),
            0 <= l < o.levels(ep),
            a.layer_result(q, ep, l, a.ef_construction as int, f, cands),
            cands == a.walk(q, ep, l, a.ef_construction as int, f),
            o.size() < usize::MAX,
            b.same_graph(&a),
            b.selection(q, l, cands, true, true, f, r),
        ensures
            o.chosen_from(q, l, ep, f, r),
            o.chosen(q, l, f, r),
    {
        let ef = o.ef_construction as int;
        Self::lemma_walk_before(a, o, q, l, ef, f, ep, cands);
        assert forall|i: int| 0 <= i < o.size() implies #[trigger] a.data@[i] == o.data@[i] by {}
        Self::lemma_walk_agrees_before(a, o, q, ep, l, ef, f);
        // The pool.
        b.lemma_same_graph(&a);
        assert forall|i: int| 0 <= i < o.size() && l < o.levels(i) implies #[trigger] b.links(i, l) == o.links(i, l) by {
            assert(b.links(i, l) == a.links(i, l));
        }
        assert forall|i: int| 0 <= i < o.size() implies #[trigger] b.data@[i] == o.data@[i] by {
            assert(b.data@ == a.data@);
        }
        assert forall|k: int| 0 <= k < cands.len() implies b.links((#[trigger] cands[k]).node_index as int, l)
            == o.links(cands[k].node_index as int, l) by {
            assert(cands[k].node_index < o.size());
        }
        assert forall|t: int| #[trigger] b.from_pool(cands, l, true, t) implies t < o.size() && l < o.levels(t)
            && o.from_pool(cands, l, true, t) by {
            if has_index(cands, t) {
                let c = choose|c: int| 0 <= c < cands.len() && #[trigger] cands[c].node_index == t;
            } else {
                let (c, j) = choose|c: int, j: int|
                    0 <= c < cands.len() && cands[c].node_index < b.size()
                        && 0 <= j < b.links(cands[c].node_index as int, l).len()
                        && #[trigger] b.links(cands[c].node_index as int, l)[j].node_index == t;
                let i = cands[c].node_index as int;
                assert(i < o.size() && l < o.levels(i));
                assert(b.links(i, l)[j].node_index < o.size());
                assert(o.links(i, l)[j].node_index == t);
            }
        }
        b.lemma_gathered_same(&o, cands, l, true, cands.len() as int);
        let pool = choose|pool: Seq<Link>| #[trigger] b.pool_of(q, l, cands, true, f, pool)
            && if pool.len() <= b.max_conn(l) {
                r == pool
            } else {
                exists|s: int| b.heuristic_split(f, pool, r, s, true, b.max_conn(l) as int)
            };
        assert forall|k: int| 0 <= k < pool.len() implies (#[trigger] pool[k]).node_index < o.size() by {
            let t = pool[k].node_index as int;
            assert(has_index(pool, t));
            assert forall|c: int| 0 <= c < cands.len() implies (#[trigger] cands[c]).node_index < b.size() by {}
            b.lemma_gathered_from_pool(cands, l, true, cands.len() as int, t);
        }
        assert(o.pool_of(q, l, cands, true, f, pool));
        if pool.len() > b.max_conn(l) {
            let s = choose|s: int| b.heuristic_split(f, pool, r, s, true, b.max_conn(l) as int);
            Self::lemma_split_before(a, o, f, pool, r, s, b.max_conn(l) as int);
        }
        assert forall|k: int| 0 <= k < r.len() implies {
            let t = #[trigger] r[k].node_index;
            &&& t < o.size()
            &&& l < o.levels(t as int)
            &&& r[k].distance == dist_of(f, q, o.data@[t as int])
            &&& o.from_pool(cands, l, true, t as int)
        } by {
            assert(b.from_pool(cands, l, true, r[k].node_index as int));
        }
        assert(o.selection(q, l, cands, true, true, f, r));
        assert(o.chosen_from(q, l, ep, f, r));
    }

    /// The heuristic's choice from a pool of old nodes reads only their
    /// vectors.
    proof fn lemma_split_before<F: Fn(&V, &V) -> u32>(
        a: Self,
        o: Self,
        f: F,
        pool: Seq<Link>,
        r: Seq<Link>,
        s: int,
        maxc: int,
    )
        requires
            forall|i: int| 0 <= i < o.size() ==> #[trigger] a.data@[i] == o.data@[i],
            forall|k: int| 0 <= k < pool.len() ==> (#[trigger] pool[k]).node_index < o.size(),
            a.heuristic_split(f, pool, r, s, true, maxc),
        ensures
            o.heuristic_split(f, pool, r, s, true, maxc),
    {
        let kept = r.subrange(0, s);
        assert forall|k: int| 0 <= k < r.len() implies (#[trigger] r[k]).node_index < o.size() by {
            assert(pool.contains(r[k]));
        }
        assert forall|k: int| 0 <= k < kept.len() implies (#[trigger] kept[k]).node_index < o.size() by {
            assert(kept[k] == r[k]);
        }
        assert forall|x: Link| x.node_index < o.size() implies #[trigger] a.rejected(f, kept, x) == o.rejected(f, kept, x) by {
            if a.rejected(f, kept, x) {
                let b = choose|b: int| 0 <= b < kept.len() && link_lt(#[trigger] kept[b], x) && x.distance >= dist_of(
                    f,
                    a.data@[x.node_index as int],
                    a.data@[kept[b].node_index as int],
                );
                assert(o.data@[kept[b].node_index as int] == a.data@[kept[b].node_index as int]);
            }
            if o.rejected(f, kept, x) {
                let b = choose|b: int| 0 <= b < kept.len() && link_lt(#[trigger] kept[b], x) && x.distance >= dist_of(
                    f,
                    o.data@[x.node_index as int],
                    o.data@[kept[b].node_index as int],
                );
                assert(o.data@[kept[b].node_index as int] == a.data@[kept[b].node_index as int]);
            }
        }
        assert(o.diverse(f, kept)) by {
            assert forall|x: int, b: int| 0 <= b < x < kept.len() implies (#[trigger] kept[x]).distance < dist_of(
                f,
                o.data@[kept[x].node_index as int],
                o.data@[(#[trigger] kept[b]).node_index as int],
            ) by {
                assert(a.data@[kept[x].node_index as int] == o.data@[kept[x].node_index as int]);
                assert(a.data@[kept[b].node_index as int] == o.data@[kept[b].node_index as int]);
            }
        }
        assert forall|k: int| s <= k < r.len() implies o.rejected(f, kept, #[trigger] r[k]) by {
            assert(a.rejected(f, kept, r[k]));
        }
        assert forall|k: int, x: int|
            0 <= k < pool.len() && 0 <= x < s && link_lt(#[trigger] pool[k], #[trigger] kept[x])
                && !has_index(kept, pool[k].node_index as int) implies o.rejected(f, kept, pool[k]) by {
            assert(a.rejected(f, kept, pool[k]));
        }
        if s != maxc {
            assert forall|k: int|
                0 <= k < pool.len() && !has_index(kept, (#[trigger] pool[k]).node_index as int)
                    implies o.rejected(f, kept, pool[k]) by {
                assert(a.rejected(f, kept, pool[k]));
            }
        }
    }

    /// Raising the top layer to the new node's height, when it is higher,
    /// completes the invariant.
    proof fn lemma_insert_done(s0: Self, s_push: Self, s_loop: Self, s: Self, insert_lyr: int)
        requires
            s0.wf(),
            s0.size() > 0,
            s_loop.wf_core(),
            s_loop.same_frame(&s_push),
            s_push.M == s0.M,
            s_push.M0 == s0.M0,
            s_push.ef_construction == s0.ef_construction,
            s_push.ef_search == s0.ef_search,
            s_push.entry_point == s0.entry_point,
            s_push.max_layer == s0.max_layer,
            s_push.nodes@.len() == s0.nodes@.len() + 1,
            forall|i: int| 0 <= i < s0.size() ==> #[trigger] s_push.levels(i) == s0.levels(i),
            s_push.levels(s0.size() as int) == insert_lyr + 1,
            insert_lyr > s0.max_layer ==> s.max_layer == insert_lyr && s.entry_point == s0.size(),
            insert_lyr <= s0.max_layer ==> s.max_layer == s0.max_layer && s.entry_point == s0.entry_point,
            s.M == s_loop.M,
            s.M0 == s_loop.M0,
            s.ef_construction == s_loop.ef_construction,
            s.ef_search == s_loop.ef_search,
            s.epoch == s_loop.epoch,
            s.data@ == s_loop.data@,
            s.nodes@ == s_loop.nodes@,
        ensures
            s.wf(),
            forall|i: int| 0 <= i < s.size() ==> #[trigger] s.levels(i) == s_push.levels(i),
    {
        assert forall|i: int| 0 <= i < s.size() implies #[trigger] s.levels(i) == s_push.levels(i) by {
            assert(s.levels(i) == s_loop.levels(i));
        }
        assert forall|i: int| 0 <= i < s.size() implies #[trigger] s.levels(i) <= s.max_layer + 1 by {
            assert(s.levels(i) == s_loop.levels(i));
            assert(s_loop.levels(i) == s_push.levels(i));
            if i < s0.size() {
                assert(s0.levels(i) <= s0.max_layer + 1);
            }
        }
        assert(s.links_ok()) by {
            assert forall|i: int, l: int, j: int|
                0 <= i < s.size() && 0 <= l < s.levels(i) && 0 <= j < s.links(i, l).len()
                    implies {
                let t = #[trigger] s.links(i, l)[j].node_index;
                &&& t < s.size()
                &&& l < s.levels(t as int)
            } by {
                assert(s.links(i, l) == s_loop.links(i, l));
            }
        }
        assert(s.lists_ok()) by {
            assert forall|i: int, l: int| 0 <= i < s.size() && 0 <= l < s.levels(i) implies {
                &&& #[trigger] s.links(i, l).len() <= s.max_conn(l)
                &&& distinct_targets(s.links(i, l))
            } by {
                assert(s.links(i, l) == s_loop.links(i, l));
            }
        }
        assert(s.levels(s.entry_point as int) == s.max_layer + 1) by {
            assert(s.levels(s.entry_point as int) == s_loop.levels(s.entry_point as int));
            if insert_lyr <= s0.max_layer {
                assert(s_push.levels(s0.entry_point as int) == s0.levels(s0.entry_point as int));
            }
        }
        assert forall|i: int| 0 <= i < s.size() implies #[trigger] s.nodes@[i].epoch <= s.epoch by {
            assert(s.nodes@[i] == s_loop.nodes@[i]);
        }
        assert forall|i: int| 0 <= i < s.size() implies #[trigger] s.levels(i) >= 1 by {
            assert(s.levels(i) == s_loop.levels(i));
        }
    }


    /// Searches for the `k` nodes closest to `q`.
    ///
    /// The walk descends from the entry point to layer 1 through layer walks
    /// of width 1, then walks the bottom layer with width
    /// `max(ef_search, k)` and returns the `k` closest links it kept, in
    /// increasing order of distance: each with a node's index and its
    /// distance from `q`.
    pub fn search<F: Fn(&V, &V) -> u32>(&mut self, q: &V, k: usize, dist: &F) -> (res: Vec<Link>)
        requires
            old(self).wf(),
            is_distance(*dist),
        ensures
            final(self).wf(),
            final(self).same_graph(old(self)),
            final(self).same_index(old(self)),
            old(self).size() == 0 ==> res@.len() == 0,
            old(self).size() > 0 ==> res@.len() <= k && (k > 0 ==> res@.len() >= 1),
            ascending(res@),
            distinct_targets(res@),
            forall|i: int| 0 <= i < res@.len() ==> {
                let t = #[trigger] res@[i].node_index;
                &&& t < old(self).size()
                &&& res@[i].distance == dist_of(*dist, *q, old(self).vectors()[t as int])
            },
            forall|i: int, j: int|
                0 <= i < res@.len() && 0 <= j < old(self).links(res@[i].node_index as int, 0).len()
                    ==> old(self).returned_or_beaten(*q, k as int, *dist, res@,
                    #[trigger] old(self).links(res@[i].node_index as int, 0)[j].node_index as int),
            res@ == old(self).search_result(*q, k as int, *dist),
    {
        if self.data.len() == 0 {
            proof {
                self.lemma_same_graph_shows(old(self));
            }
            return Vec::new();
        }
        let mut ep = self.entry_point;
        let mut lyr = self.max_layer;
        while lyr > 0
            invariant
                self.wf_core(),
                self.same_graph(old(self)),
                is_distance(*dist),
                ep < self.size(),
                lyr < self.levels(ep as int),
                lyr <= self.max_layer,
                ep == old(self).descent(*q, lyr as int, *dist),
            decreases lyr,
        {
            let ghost pre = *self;
            let res = self.search_layer(q, ep, lyr, 1, dist);
            proof {
                assert(self.layer_result(*q, ep as int, lyr as int, 1, *dist, res@));
                let t = res@[0].node_index;
                assert(lyr < self.levels(t as int));
                pre.lemma_walk_graph(old(self));
                assert(res@ == old(self).walk(*q, ep as int, (lyr - 1) + 1, 1, *dist));
                assert(t == old(self).descent(*q, lyr - 1, *dist));
            }
            ep = res[0].node_index;
            lyr -= 1;
        }
        let ef = if self.ef_search > k {
            self.ef_search
        } else {
            k
        };
        let ghost pre = *self;
        let mut results = self.search_layer(q, ep, 0, ef, dist);
        let ghost full = results@;
        results.truncate(k);
        proof {
            old(self).lemma_wf_same_graph(self);
            self.lemma_same_graph(old(self));
            self.lemma_truncated_result(*q, ep as int, ef as int, k as int, *dist, full, results@);
            let r = results@;
            Self::lemma_walk_same(*self, *old(self), *q, ep as int, 0, ef as int, *dist, full);
            assert(k <= full.len() ==> r == full.subrange(0, k as int));
            assert(ef == old(self).search_width(k as int));
            pre.lemma_walk_graph(old(self));
            assert(full == old(self).walk(*q, old(self).descent(*q, 0, *dist), 0, old(self).search_width(k as int), *dist));
            assert(r == old(self).search_result(*q, k as int, *dist));
            self.lemma_same_graph_shows(old(self));
            assert forall|i: int, j: int|
                0 <= i < r.len() && 0 <= j < old(self).links(r[i].node_index as int, 0).len()
                    implies old(self).returned_or_beaten(*q, k as int, *dist, r,
                    #[trigger] old(self).links(r[i].node_index as int, 0)[j].node_index as int) by {
                let t = r[i].node_index as int;
                assert(old(self).links(t, 0) == self.links(t, 0));
                assert(self.returned_or_beaten(*q, k as int, *dist, r, self.links(t, 0)[j].node_index as int));
            }
        }
        results
    }

    /// A walk of `a` is a walk of `o` when the two hold the same graph.
    proof fn lemma_walk_same<F: Fn(&V, &V) -> u32>(
        a: Self,
        o: Self,
        q: V,
        ep: int,
        l: int,
        ef: int,
        f: F,
        r: Seq<Link>,
    )
        requires
            a.same_graph(&o),
            a.layer_result(q, ep, l, ef, f, r),
        ensures
            o.layer_result(q, ep, l, ef, f, r),
    {
        a.lemma_same_graph(&o);
        assert forall|kk: int, j: int|
            0 <= kk < r.len() && 0 <= j < o.links(r[kk].node_index as int, l).len()
                implies o.covered(q, l, ef, f, r, #[trigger] o.links(r[kk].node_index as int, l)[j].node_index as int) by {
            assert(o.links(r[kk].node_index as int, l) == a.links(r[kk].node_index as int, l));
        }
    }

    /// Where the descent towards `q` from the entry point down to layer `l`
    /// ends: the entry point on the top layer; below it, the node of the
    /// first link that a walk of width 1 of the layer above returns, started
    /// where the descent to that layer ended.
    pub closed spec fn descent<F: Fn(&V, &V) -> u32>(&self, q: V, l: int, f: F) -> int
        decreases self.top_layer() - l,
    {
        if l >= self.top_layer() {
            self.entry() as int
        } else {
            self.walk(q, self.descent(q, l + 1, f), l + 1, 1, f)[0].node_index as int
        }
    }

    /// What a search for the `k` closest links to `q` returns: nothing on an
    /// empty index; else the `k` first links (all, when there are fewer) of
    /// the walk of the bottom layer from where the descent ends, with width
    /// the larger of `ef_search` and `k`.
    pub closed spec fn search_result<F: Fn(&V, &V) -> u32>(&self, q: V, k: int, f: F) -> Seq<Link> {
        if self.size() == 0 {
            Seq::empty()
        } else {
            let full = self.walk(q, self.descent(q, 0, f), 0, self.search_width(k), f);
            if k <= full.len() {
                full.subrange(0, k)
            } else {
                full
            }
        }
    }

    /// A search depends only on the vectors, lists and parameters: a search
    /// that leaves them unchanged is followed by one that returns the same.
    pub proof fn lemma_search_repeatable<F: Fn(&V, &V) -> u32>(&self, o: &Self, q: V, k: int, f: F)
        requires
            self.same_graph(o),
        ensures
            self.search_result(q, k, f) == o.search_result(q, k, f),
    {
        self.lemma_walk_graph(o);
        self.lemma_descent_same(o, q, 0, f);
    }

    proof fn lemma_descent_same<F: Fn(&V, &V) -> u32>(&self, o: &Self, q: V, l: int, f: F)
        requires
            self.same_graph(o),
        ensures
            self.descent(q, l, f) == o.descent(q, l, f),
        decreases self.top_layer() - l,
    {
        self.lemma_walk_graph(o);
        if l < self.top_layer() {
            self.lemma_descent_same(o, q, l + 1, f);
        }
    }

    /// A search for fewer links, both within `ef_search`, returns the first
    /// links of a search for more.
    pub proof fn lemma_search_prefix<F: Fn(&V, &V) -> u32>(&self, q: V, k1: int, k2: int, f: F)
        requires
            0 <= k1 <= k2 <= self.params().3,
        ensures
            self.search_result(q, k1, f) == (if k1 <= self.search_result(q, k2, f).len() {
                self.search_result(q, k2, f).subrange(0, k1)
            } else {
                self.search_result(q, k2, f)
            }),
    {
        assert(self.search_width(k1) == self.search_width(k2));
        if self.size() > 0 {
            let full = self.walk(q, self.descent(q, 0, f), 0, self.search_width(k1), f);
            if k2 <= full.len() {
                assert(full.subrange(0, k2).subrange(0, k1) =~= full.subrange(0, k1));
            }
        }
    }

    /// The width of the bottom-layer walk of a search for `k` links.
    pub closed spec fn search_width(&self, k: int) -> int {
        if self.ef_search > k {
            self.ef_search as int
        } else {
            k
        }
    }

    /// Node `v` is among the returned links `r`, or `r` holds `k` links and
    /// none is further from `q` than `v`.
    pub closed spec fn returned_or_beaten<F: Fn(&V, &V) -> u32>(
        &self,
        q: V,
        k: int,
        f: F,
        r: Seq<Link>,
        v: int,
    ) -> bool {
        has_index(r, v) || (r.len() == k && forall|i: int|
            0 <= i < r.len() ==> #[trigger] r[i].distance <= dist_of(f, q, self.data@[v]))
    }

    /// The `k` first links of a bottom-layer walk of width at least `k`.
    proof fn lemma_truncated_result<F: Fn(&V, &V) -> u32>(
        &self,
        q: V,
        ep: int,
        ef: int,
        k: int,
        f: F,
        full: Seq<Link>,
        r: Seq<Link>,
    )
        requires
            self.wf_core(),
            ef >= k,
            self.layer_result(q, ep, 0, ef, f, full),
            0 <= k,
            k <= full.len() ==> r == full.subrange(0, k),
            k > full.len() ==> r == full,
        ensures
            r.len() <= k,
            k > 0 ==> r.len() >= 1,
            ascending(r),
            distinct_targets(r),
            forall|i: int| 0 <= i < r.len() ==> {
                let t = #[trigger] r[i].node_index;
                &&& t < self.size()
                &&& r[i].distance == dist_of(f, q, self.data@[t as int])
            },
            forall|i: int, j: int|
                0 <= i < r.len() && 0 <= j < self.links(r[i].node_index as int, 0).len()
                    ==> self.returned_or_beaten(q, k, f, r,
                    #[trigger] self.links(r[i].node_index as int, 0)[j].node_index as int),
    {
        assert forall|i: int| 0 <= i < r.len() implies {
            let t = #[trigger] r[i].node_index;
            &&& t < self.size()
            &&& r[i].distance == dist_of(f, q, self.data@[t as int])
        } by {
            assert(r[i] == full[i]);
        }
        assert forall|a: int, b: int| 0 <= a < r.len() && 0 <= b < r.len() && a != b implies
            #[trigger] r[a].node_index != #[trigger] r[b].node_index by {
            assert(r[a] == full[a] && r[b] == full[b]);
        }
        assert forall|a: int, b: int| 0 <= a < b < r.len() implies link_lt(#[trigger] r[a], #[trigger] r[b]) by {
            assert(r[a] == full[a] && r[b] == full[b]);
        }
        assert forall|i: int, j: int|
            0 <= i < r.len() && 0 <= j < self.links(r[i].node_index as int, 0).len()
                implies self.returned_or_beaten(q, k, f, r,
                #[trigger] self.links(r[i].node_index as int, 0)[j].node_index as int) by {
            assert(r[i] == full[i]);
            let v = self.links(full[i].node_index as int, 0)[j].node_index as int;
            assert(self.covered(q, 0, ef, f, full, v));
            if has_index(full, v) {
                let p = choose|p: int| 0 <= p < full.len() && #[trigger] full[p].node_index == v;
                if p < r.len() {
                    assert(r[p] == full[p]);
                    assert(has_index(r, v));
                } else {
                    assert forall|i2: int| 0 <= i2 < r.len() implies #[trigger] r[i2].distance <= dist_of(f, q, self.data@[v]) by {
                        assert(r[i2] == full[i2]);
                        assert(link_lt(full[i2], full[p]));
                    }
                }
            } else {
                assert forall|i2: int| 0 <= i2 < r.len() implies #[trigger] r[i2].distance <= dist_of(f, q, self.data@[v]) by {
                    assert(r[i2] == full[i2]);
                }
            }
        }
    }

    /// A best-first walk of layer `lyr` from `ep` towards `q`: it keeps the
    /// `ef` closest nodes reached so far, and expands the closest node not
    /// expanded yet until that node is further than every kept one.
    fn search_layer<F: Fn(&V, &V) -> u32>(
        &mut self,
        q: &V,
        ep: usize,
        lyr: usize,
        ef: usize,
        dist: &F,
    ) -> (res: Vec<Link>)
        requires
            old(self).wf_core(),
            is_distance(*dist),
            ef > 0,
            lyr <= old(self).max_layer,
            ep < old(self).size(),
            lyr < old(self).levels(ep as int),
        ensures
            final(self).wf_core(),
            final(self).same_graph(old(self)),
            final(self).layer_result(*q, ep as int, lyr as int, ef as int, *dist, res@),
            res@ == old(self).walk(*q, ep as int, lyr as int, ef as int, *dist),
    {
        let ghost gr = old(self).graph();
        let ghost dt = old(self).data@;
        let ghost w = old(self).walk(*q, ep as int, lyr as int, ef as int, *dist);
        self.begin_epoch();
        let ghost g0 = *self;
        proof {
            g0.lemma_same_graph(old(self));
        }
        let e = self.epoch;
        let d0 = distance(dist, q, &self.data[ep]);
        let ep_link = Link { node_index: ep, distance: d0 };
        let mut frontier: Vec<Link> = Vec::new();
        frontier.push(ep_link);
        let mut best: Vec<Link> = Vec::new();
        best.push(ep_link);
        self.nodes[ep].epoch = e;
        let ghost mut seen: Set<int> = set![ep as int];
        proof {
            self.lemma_same_graph(&g0);
            assert(best@[0] == ep_link);
            assert(frontier@[0] == ep_link);
            assert(best@[0].node_index == ep);
            assert(frontier@[0].node_index == ep);
            assert(has_index(best@, ep as int));
            assert(has_index(frontier@, ep as int));
            assert forall|v: int| #[trigger] seen.contains(v) <==> (0 <= v < self.size() && self.marked(v)) by {
                if 0 <= v < self.size() && v != ep {
                    assert(self.nodes@[v] == g0.nodes@[v]);
                    assert(!g0.marked(v));
                }
            }
            assert forall|v: int| 0 <= v < self.size() && #[trigger] self.marked(v) implies v == ep by {
                assert(seen.contains(v));
            }
            vstd::set_lib::lemma_int_range(0, self.size() as int);
            vstd::set_lib::lemma_len_subset(seen, vstd::set_lib::set_int_range(0, self.size() as int));
            assert(self.walk_inv(g0, *q, ep as int, lyr as int, ef as int, *dist, best@, frontier@, seen, -1));
            old(self).lemma_walk_graph(old(self));
            assert(best@ =~= seq![ep_link]);
            assert(frontier@ =~= seq![ep_link]);
            assert(seen.len() == 1);
        }
        let ghost mut fuel: nat = (self.size() + 1) as nat;
        while frontier.len() > 0
            invariant
                self.walk_inv(g0, *q, ep as int, lyr as int, ef as int, *dist, best@, frontier@, seen, -1),
                self.epoch == e,
                g0.same_graph(old(self)),
                gr == old(self).graph(),
                dt == old(self).data@,
                w == Self::walk_from(gr, dt, *q, lyr as int, ef as int, *dist, (best@, frontier@, seen), fuel),
                fuel >= frontier@.len() + (self.size() - seen.len()) + 1,
            ensures
                self.walk_inv(g0, *q, ep as int, lyr as int, ef as int, *dist, best@, frontier@, seen, -1),
                forall|u: int| 0 <= u < self.size() && #[trigger] has_index(best@, u) ==> self.expanded(u, lyr as int),
                w == best@,
            decreases 2 * (self.size() - seen.len()) + frontier@.len(),
        {
            let last = frontier.len() - 1;
            let candidate = frontier[last];
            let furthest = best[best.len() - 1];
            if candidate.distance > furthest.distance {
                proof {
                    self.lemma_walk_stop(g0, *q, ep as int, lyr as int, ef as int, *dist, best@, frontier@, seen);
                }
                break;
            }
            let ghost measure0 = 2 * (self.size() - seen.len()) + frontier@.len();
            let ghost f_before = frontier@;
            let ghost st_p = (best@, f_before.drop_last(), seen);
            let ghost seen0 = seen;
            frontier.pop();
            let c = candidate.node_index;
            proof {
                assert(self.reached(*q, lyr as int, *dist, f_before[last as int]));
                self.lemma_walk_pop(g0, *q, ep as int, lyr as int, ef as int, *dist, best@, f_before, frontier@, seen);
                self.lemma_same_graph(&g0);
                g0.lemma_same_graph(old(self));
                assert(gr[c as int][lyr as int] == old(self).links(c as int, lyr as int));
                assert(frontier@ == f_before.drop_last());
                assert(w == Self::walk_from(gr, dt, *q, lyr as int, ef as int, *dist,
                    Self::visit_all(gr, dt, *q, lyr as int, ef as int, *dist, st_p, c as int, gr[c as int][lyr as int].len() as int),
                    (fuel - 1) as nat));
            }
            let nlen = self.nodes[c].layers[lyr].len();
            let mut j: usize = 0;
            while j < nlen
                invariant
                    self.walk_inv(g0, *q, ep as int, lyr as int, ef as int, *dist, best@, frontier@, seen, c as int),
                    self.epoch == e,
                    g0.same_graph(old(self)),
                    c < self.size(),
                    lyr < self.levels(c as int),
                    nlen == self.links(c as int, lyr as int).len(),
                    0 <= j <= nlen,
                    forall|jj: int| 0 <= jj < j ==> self.marked(#[trigger] self.links(c as int, lyr as int)[jj].node_index as int),
                    2 * (self.size() - seen.len()) + frontier@.len() < measure0,
                    gr == old(self).graph(),
                    dt == old(self).data@,
                    gr[c as int][lyr as int] == old(self).links(c as int, lyr as int),
                    (best@, frontier@, seen) == Self::visit_all(gr, dt, *q, lyr as int, ef as int, *dist, st_p, c as int, j as int),
                    frontier@.len() + (self.size() - seen.len()) <= f_before.len() - 1 + (self.size() - seen0.len()),
                decreases nlen - j,
            {
                let nb = self.nodes[c].layers[lyr][j].node_index;
                proof {
                    self.lemma_same_graph(&g0);
                    g0.lemma_same_graph(old(self));
                    assert(g0.links(c as int, lyr as int)[j as int] == self.links(c as int, lyr as int)[j as int]);
                    assert(gr[c as int][lyr as int][j as int].node_index == nb);
                }
                if self.nodes[nb].epoch == e {
                    proof {
                        assert(seen.contains(nb as int));
                    }
                }
                if self.nodes[nb].epoch != e {
                    let ghost s0 = *self;
                    let ghost best0 = best@;
                    let ghost frontier0 = frontier@;
                    self.nodes[nb].epoch = e;
                    let d = distance(dist, q, &self.data[nb]);
                    let link = Link { node_index: nb, distance: d };
                    proof {
                        s0.lemma_same_graph(&g0);
                        assert(has_index(s0.links(c as int, lyr as int), nb as int)) by {
                            assert(s0.links(c as int, lyr as int)[j as int].node_index == nb);
                        }
                        assert(!has_index(best@, nb as int)) by {
                            if has_index(best@, nb as int) {
                                let k = choose|k: int| 0 <= k < best@.len() && #[trigger] best@[k].node_index == nb;
                                assert(s0.reached(*q, lyr as int, *dist, best@[k]));
                            }
                        }
                        assert(!has_index(frontier@, nb as int)) by {
                            if has_index(frontier@, nb as int) {
                                let k = choose|k: int| 0 <= k < frontier@.len() && #[trigger] frontier@[k].node_index == nb;
                                assert(s0.reached(*q, lyr as int, *dist, frontier@[k]));
                            }
                        }
                    }
                    offer(&mut best, &mut frontier, ef, link);
                    proof {
                        assert(!seen.contains(nb as int));
                        Self::lemma_walk_visit(s0, *self, g0, *q, ep as int, lyr as int, ef as int, *dist, best0, frontier0, best@, frontier@, seen, c as int, link);
                        assert(s0.data@ == dt);
                        assert(link == Link { node_index: nb as int as usize, distance: dist_of(*dist, *q, dt[nb as int]) });
                        seen = seen.insert(nb as int);
                    }
                }
                j += 1;
            }
            proof {
                fuel = (fuel - 1) as nat;
            }
            proof {
                assert(self.expanded(c as int, lyr as int));
                assert forall|u: int|
                    0 <= u < self.size() && u != -1 && #[trigger] self.marked(u) && has_index(best@, u)
                        && !has_index(frontier@, u) implies self.expanded(u, lyr as int) by {
                    if u != c {
                        assert(u != c as int);
                    }
                }
            }
        }
        proof {
            self.lemma_walk_result(g0, *q, ep as int, lyr as int, ef as int, *dist, best@, frontier@, seen);
            self.lemma_same_graph(&g0);
        }
        best
    }

    /// A neighbour list never holds more than `max_conn` links for its
    /// layer (`M0` on the bottom layer, `M` above it).
    pub proof fn lemma_degree_bound(&self, i: int, l: int)
        requires
            self.wf(),
            0 <= i < self.size(),
            0 <= l < self.levels(i),
        ensures
            self.links(i, l).len() <= self.max_conn(l),
            self.max_conn(l) == if l == 0 { self.params().1 } else { self.params().0 },
    {
    }

    /// No neighbour list holds the same node twice.
    pub proof fn lemma_no_duplicate_neighbours(&self, i: int, l: int)
        requires
            self.wf(),
            0 <= i < self.size(),
            0 <= l < self.levels(i),
        ensures
            distinct_targets(self.links(i, l)),
    {
    }

    /// Every link points to a node of the index that lives on the
    /// link's layer.
    pub proof fn lemma_links_stay_in_layer(&self, i: int, l: int, j: int)
        requires
            self.wf(),
            0 <= i < self.size(),
            0 <= l < self.levels(i),
            0 <= j < self.links(i, l).len(),
        ensures
            self.links(i, l)[j].node_index < self.size(),
            l < self.levels(self.links(i, l)[j].node_index as int),
    {
    }

    /// A non-empty index has its entry point on the top layer, and no
    /// node above it; every node lives on the bottom layer.
    pub proof fn lemma_entry_on_top(&self, i: int)
        requires
            self.wf(),
            0 <= i < self.size(),
        ensures
            self.entry() < self.size(),
            self.levels(self.entry() as int) == self.top_layer() + 1,
            1 <= self.levels(i) <= self.top_layer() + 1,
    {
    }

    /// `self` and `o` hold the same index: the same vectors, neighbour lists,
    /// entry point, top layer and parameters (visit marks aside).
    pub open spec fn same_index(&self, o: &Self) -> bool {
        &&& self.graph() == o.graph()
        &&& self.vectors() == o.vectors()
        &&& self.entry() == o.entry()
        &&& self.top_layer() == o.top_layer()
        &&& self.params() == o.params()
    }

    proof fn lemma_graph_facts(a: Self, b: Self)
        requires
            a.graph() == b.graph(),
        ensures
            a.size() == b.size(),
            forall|i: int| 0 <= i < a.size() ==> #[trigger] a.levels(i) == b.levels(i),
            forall|i: int, l: int| 0 <= i < a.size() && 0 <= l < a.levels(i) ==> #[trigger] a.links(i, l) == b.links(i, l),
    {
        assert(a.graph().len() == a.size());
        assert(b.graph().len() == b.size());
        assert forall|i: int| 0 <= i < a.size() implies #[trigger] a.levels(i) == b.levels(i) by {
            assert(a.graph()[i].len() == a.levels(i));
            assert(b.graph()[i].len() == b.levels(i));
        }
        assert forall|i: int, l: int| 0 <= i < a.size() && 0 <= l < a.levels(i) implies #[trigger] a.links(i, l) == b.links(i, l) by {
            a.lemma_graph_at(i, l);
            b.lemma_graph_at(i, l);
        }
    }

    proof fn lemma_graph_from(a: Self, b: Self)
        requires
            a.size() == b.size(),
            forall|i: int| 0 <= i < a.size() ==> #[trigger] a.levels(i) == b.levels(i),
            forall|i: int, l: int| 0 <= i < a.size() && 0 <= l < a.levels(i) ==> #[trigger] a.links(i, l) == b.links(i, l),
        ensures
            a.graph() == b.graph(),
    {
        assert forall|i: int| 0 <= i < a.size() implies #[trigger] a.graph()[i] == b.graph()[i] by {
            assert(a.graph()[i].len() == a.levels(i));
            assert(b.graph()[i].len() == b.levels(i));
            assert forall|l: int| 0 <= l < a.levels(i) implies a.graph()[i][l] == b.graph()[i][l] by {
                a.lemma_graph_at(i, l);
                b.lemma_graph_at(i, l);
            }
            assert(a.graph()[i] =~= b.graph()[i]);
        }
        assert(a.graph() =~= b.graph());
    }

    proof fn lemma_descent_same_index<F: Fn(&V, &V) -> u32>(a: Self, b: Self, q: V, l: int, f: F)
        requires
            a.same_index(&b),
        ensures
            a.descent(q, l, f) == b.descent(q, l, f),
        decreases a.top_layer() - l,
    {
        Self::lemma_graph_facts(a, b);
        if l < a.top_layer() {
            Self::lemma_descent_same_index(a, b, q, l + 1, f);
        }
    }

    /// Two empty well-formed indexes with the same parameters, entry point
    /// and top layer are the same index: seeded construction starts alike.
    pub proof fn lemma_empty_same_index(&self, o: &Self)
        requires
            self.wf(),
            o.wf(),
            self.size() == 0,
            o.size() == 0,
            self.params() == o.params(),
            self.entry() == o.entry(),
            self.top_layer() == o.top_layer(),
        ensures
            self.same_index(o),
    {
        assert(self.graph() =~= o.graph());
        assert(self.vectors() =~= o.vectors());
    }

    /// What `same_graph` says, as callers can use it: the same number of
    /// nodes, vectors, layers and lists, the same entry point, top layer and
    /// parameters. A search, for one, leaves the index so.
    pub proof fn lemma_same_graph_shows(&self, o: &Self)
        requires
            self.same_graph(o),
        ensures
            self.same_index(o),
            self.size() == o.size(),
            forall|i: int| 0 <= i < self.size() ==> #[trigger] self.levels(i) == o.levels(i),
            forall|i: int, l: int| 0 <= i < self.size() ==> #[trigger] self.links(i, l) == o.links(i, l),
    {
        self.lemma_same_graph(o);
        self.lemma_walk_graph(o);
    }

    /// A well-formed index holds one vector per node, and its parameters are
    /// those that construction accepts.
    pub proof fn lemma_wf_shape(&self)
        requires
            self.wf(),
        ensures
            self.vectors().len() == self.size(),
            self.params().0 > 1,
            self.params().1 > 0,
            self.params().2 > 0,
            self.params().3 > 0,
    {
    }

    /// Number of nodes (and vectors) in the index.
    pub fn len(&self) -> (r: usize)
        requires
            self.wf(),
        ensures
            r == self.size(),
    {
        self.nodes.len()
    }

    /// Whether the index holds no vector.
    pub fn is_empty(&self) -> (r: bool)
        requires
            self.wf(),
        ensures
            r == (self.size() == 0),
    {
        self.nodes.len() == 0
    }

    /// The entry point of the walks (0 when the index is empty).
    pub fn entry_point(&self) -> (r: usize)
        ensures
            r == self.entry(),
    {
        self.entry_point
    }

    /// The top layer of the index.
    pub fn max_layer(&self) -> (r: usize)
        ensures
            r == self.top_layer(),
    {
        self.max_layer
    }

    /// Number of layers node `i` lives on; `None` for a node out of range.
    pub fn layer_count(&self, i: usize) -> (r: Option<usize>)
        ensures
            i < self.size() ==> (r matches Some(c) && c == self.levels(i as int)),
            i >= self.size() ==> r is None,
    {
        if i < self.nodes.len() {
            Some(self.nodes[i].layers.len())
        } else {
            None
        }
    }

    /// The neighbour list of node `i` on layer `lyr`; `None` when the node
    /// does not exist or does not live on that layer.
    pub fn neighbors(&self, i: usize, lyr: usize) -> (r: Option<&Vec<Link>>)
        ensures
            (i < self.size() && lyr < self.levels(i as int)) ==> (r matches Some(v) && v@ == self.links(i as int, lyr as int)),
            !(i < self.size() && lyr < self.levels(i as int)) ==> r is None,
    {
        if i < self.nodes.len() && lyr < self.nodes[i].layers.len() {
            Some(&self.nodes[i].layers[lyr])
        } else {
            None
        }
    }

    /// The stored vector of node `i`; `None` for a node out of range.
    pub fn vector(&self, i: usize) -> (r: Option<&V>)
        requires
            self.wf(),
        ensures
            i < self.size() ==> r == Some(&self.vectors()[i as int]),
            i >= self.size() ==> r is None,
    {
        if i < self.data.len() {
            Some(&self.data[i])
        } else {
            None
        }
    }

    /// The nodes of the index, by node index.
    pub closed spec fn node_list(&self) -> Seq<Node> {
        self.nodes@
    }

    /// The nodes of the index: each node's neighbour lists, by layer.
    pub fn nodes(&self) -> (r: &Vec<Node>)
        ensures
            r@ == self.node_list(),
            r@.len() == self.size(),
            forall|i: int, l: int| 0 <= i < self.size() && 0 <= l < self.levels(i) ==> #[trigger] r@[i].layers@[l]@ == self.links(i, l),
    {
        &self.nodes
    }
}

} // verus!
