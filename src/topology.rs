use vstd::prelude::*;
use vstd::hash_map::HashMapWithView;

verus! {

broadcast use vstd::std_specs::hash::group_hash_axioms;

/// The kind of a directed relationship `(a, b, kind)`, seen from `a`.
#[derive(Clone, Copy, PartialEq, Eq, Debug, Structural)]
pub enum RelKind {
    /// `a` is a customer of `b`: crossing the edge climbs the hierarchy.
    CustomerToProvider,
    /// `a` is a provider of `b`: crossing the edge descends the hierarchy.
    ProviderToCustomer,
    /// `a` and `b` are peers.
    PeerToPeer,
}

impl RelKind {
    pub open spec fn spec_inverse(self) -> RelKind {
        match self {
            RelKind::CustomerToProvider => RelKind::ProviderToCustomer,
            RelKind::ProviderToCustomer => RelKind::CustomerToProvider,
            RelKind::PeerToPeer => RelKind::PeerToPeer,
        }
    }

    /// The same relationship seen from the other end.
    pub fn inverse(self) -> (r: RelKind)
        ensures
            r == self.spec_inverse(),
    {
        match self {
            RelKind::CustomerToProvider => RelKind::ProviderToCustomer,
            RelKind::ProviderToCustomer => RelKind::CustomerToProvider,
            RelKind::PeerToPeer => RelKind::PeerToPeer,
        }
    }
}

/// A query about an AS that the topology does not hold.
#[derive(Clone, Copy, PartialEq, Eq, Debug, Structural)]
pub enum TopologyError {
    UnknownAsn { asn: u32 },
}

/// An outgoing edge of a node: the handle it leads to and its kind.
#[derive(Clone, Copy, PartialEq, Eq, Debug, Structural)]
pub struct Link {
    pub to: usize,
    pub kind: RelKind,
}

/// One relationship of an edge list: `kind` is `b` as seen from `a`.
#[derive(Clone, Copy, PartialEq, Eq, Debug, Structural)]
pub struct Relationship {
    pub a: u32,
    pub b: u32,
    pub kind: RelKind,
}

impl Relationship {
    pub open spec fn mentions(self, x: u32) -> bool {
        self.a == x || self.b == x
    }
}

/// The AS numbers that an edge list mentions.
pub open spec fn mentioned(rels: Seq<Relationship>) -> Set<u32> {
    Set::new(|x: u32| exists|i: int| 0 <= i < rels.len() && #[trigger] rels[i].mentions(x))
}

/// The topology that an edge list describes, built one relationship at a time.
pub open spec fn built(rels: Seq<Relationship>) -> TopoView
    decreases rels.len(),
{
    if rels.len() == 0 {
        TopoView { asns: Set::empty(), edges: Set::empty() }
    } else {
        let r = rels.last();
        built(rels.drop_last()).with_rel(r.a, r.b, r.kind)
    }
}

/// Building a topology from an edge list yields exactly the AS numbers
/// that the list mentions.
pub proof fn lemma_built_asns(rels: Seq<Relationship>)
    ensures
        built(rels).asns == mentioned(rels),
    decreases rels.len(),
{
    if rels.len() > 0 {
        let init = rels.drop_last();
        lemma_built_asns(init);
        let r = rels.last();
        assert forall|x: u32| mentioned(rels).contains(x) <==> mentioned(init).insert(r.a).insert(r.b).contains(x) by {
            if mentioned(rels).contains(x) {
                let i = choose|i: int| 0 <= i < rels.len() && #[trigger] rels[i].mentions(x);
                if i < rels.len() - 1 {
                    assert(init[i] == rels[i]);
                }
            }
            if mentioned(init).contains(x) {
                let i = choose|i: int| 0 <= i < init.len() && #[trigger] init[i].mentions(x);
                assert(init[i] == rels[i]);
            }
            if x == r.a || x == r.b {
                assert(rels[rels.len() - 1] == r);
                assert(rels[rels.len() - 1].mentions(x));
            }
        }
        assert(mentioned(rels) =~= mentioned(init).insert(r.a).insert(r.b));
    } else {
        assert(mentioned(rels) =~= Set::empty());
    }
}

/// The mathematical picture of a topology: the live AS numbers and the
/// directed, typed edges between them.
pub struct TopoView {
    pub asns: Set<u32>,
    pub edges: Set<(u32, u32, RelKind)>,
}

impl TopoView {
    /// The view after deleting `a` and every edge incident to it.
    pub open spec fn without(self, a: u32) -> TopoView {
        TopoView {
            asns: self.asns.remove(a),
            edges: self.edges.filter(|e: (u32, u32, RelKind)| e.0 != a && e.1 != a),
        }
    }

    /// The view after adding the relationship `(a, b, k)` in both directions.
    pub open spec fn with_rel(self, a: u32, b: u32, k: RelKind) -> TopoView {
        TopoView {
            asns: self.asns.insert(a).insert(b),
            edges: self.edges.insert((a, b, k)).insert((b, a, k.spec_inverse())),
        }
    }

    /// Removing a node twice leaves what removing it once left.
    pub proof fn lemma_remove_idempotent(self, a: u32)
        ensures
            self.without(a).without(a) == self.without(a),
    {
        assert(self.without(a).without(a).asns =~= self.without(a).asns);
        assert(self.without(a).without(a).edges =~= self.without(a).edges);
    }

    /// The direct providers of `a`.
    pub open spec fn providers(self, a: u32) -> Set<u32> {
        Set::new(|p: u32| self.edges.contains((a, p, RelKind::CustomerToProvider)))
    }
}

/// An AS-relationship graph: an arena of nodes addressed by handles, with an
/// index from AS number to the handle of the live node that carries it.
/// A removed node keeps its slot; its handle is never reused.
pub struct Topology {
    asns: Vec<u32>,
    alive: Vec<bool>,
    links: Vec<Vec<Link>>,
    index: HashMapWithView<u32, usize>,
}

impl Topology {
    pub closed spec fn live(&self, h: int) -> bool {
        0 <= h < self.asns@.len() && self.alive@[h]
    }

    pub closed spec fn asn_at(&self, h: int) -> u32 {
        self.asns@[h]
    }

    pub closed spec fn slots(&self) -> int {
        self.asns@.len() as int
    }

    pub closed spec fn link_at(&self, h: int, i: int) -> Link {
        self.links@[h]@[i]
    }

    pub closed spec fn degree(&self, h: int) -> int {
        self.links@[h]@.len() as int
    }

    /// `h`'s link `i` is an edge `(a, b, k)` between live nodes.
    pub open spec fn link_is(&self, h: int, i: int, a: u32, b: u32, k: RelKind) -> bool {
        &&& self.live(h)
        &&& 0 <= i < self.degree(h)
        &&& self.live(self.link_at(h, i).to as int)
        &&& self.asn_at(h) == a
        &&& self.asn_at(self.link_at(h, i).to as int) == b
        &&& self.link_at(h, i).kind == k
    }

    pub closed spec fn wf(&self) -> bool {
        &&& self.alive@.len() == self.asns@.len()
        &&& self.links@.len() == self.asns@.len()
        &&& self.index@.dom().finite()
        &&& forall|a: u32| #[trigger]
            self.index@.contains_key(a) ==> self.live(self.index@[a] as int) && self.asns@[self.index@[a] as int] == a
        &&& forall|h: int| #[trigger]
            self.live(h) ==> self.index@.contains_key(self.asns@[h]) && self.index@[self.asns@[h]] == h
        &&& forall|h: int, i: int|
            0 <= h < self.asns@.len() && 0 <= i < self.links@[h]@.len() ==> #[trigger] self.links@[h]@[i].to
                < self.asns@.len()
        &&& forall|h: int, i: int, j: int|
            0 <= h < self.asns@.len() && 0 <= i < j < self.links@[h]@.len() ==> #[trigger] self.links@[h]@[i]
                != #[trigger] self.links@[h]@[j]
    }

    pub closed spec fn topo_view(&self) -> TopoView {
        TopoView {
            asns: self.index@.dom(),
            edges: Set::new(
                |e: (u32, u32, RelKind)|
                    exists|h: int, i: int| #[trigger] self.link_is(h, i, e.0, e.1, e.2),
            ),
        }
    }

    /// Live handles carry distinct AS numbers, and each live AS number is
    /// carried by the handle that the index gives.
    pub proof fn lemma_handle_of(&self, h: int)
        requires
            self.wf(),
            self.live(h),
        ensures
            0 <= h < self.slots(),
            self@.asns.contains(self.asn_at(h)),
            forall|g: int| #[trigger] self.live(g) && self.asn_at(g) == self.asn_at(h) ==> g == h,
    {
    }

    /// The empty topology.
    pub fn new() -> (t: Topology)
        ensures
            t.wf(),
            t.slots() == 0,
            t@.asns == Set::<u32>::empty(),
            t@.edges == Set::<(u32, u32, RelKind)>::empty(),
    {
        let t = Topology {
            asns: Vec::new(),
            alive: Vec::new(),
            links: Vec::new(),
            index: HashMapWithView::new(),
        };
        assert(t@.edges =~= Set::<(u32, u32, RelKind)>::empty());
        t
    }
}

impl Topology {
    /// The handle of the live node that carries `asn`, if any.
    pub fn index_of(&self, asn: u32) -> (r: Option<usize>)
        requires
            self.wf(),
        ensures
            r is Some <==> self@.asns.contains(asn),
            r matches Some(h) ==> self.live(h as int) && self.asn_at(h as int) == asn,
    {
        match self.index.get(&asn) {
            Some(h) => Some(*h),
            None => None,
        }
    }

    /// The number of live nodes.
    pub fn node_count(&self) -> (r: usize)
        requires
            self.wf(),
        ensures
            r == self@.asns.len(),
    {
        self.index.len()
    }

    /// The handle of `asn`, adding a node without edges for it if absent.
    fn handle_or_insert(&mut self, asn: u32) -> (h: usize)
        requires
            old(self).wf(),
            old(self).slots() < usize::MAX,
        ensures
            final(self).wf(),
            final(self)@.asns == old(self)@.asns.insert(asn),
            final(self)@.edges == old(self)@.edges,
            final(self).live(h as int),
            final(self).asn_at(h as int) == asn,
            final(self).slots() <= old(self).slots() + 1,
            forall|g: int| #[trigger] old(self).live(g) ==> final(self).live(g) && final(self).asn_at(g) == old(self).asn_at(g),
            final(self).slots() - final(self)@.asns.len() == old(self).slots() - old(self)@.asns.len(),
    {
        match self.index.get(&asn) {
            Some(h) => {
                assert(self@.asns.insert(asn) =~= self@.asns);
                *h
            },
            None => {
                let h = self.asns.len();
                let ghost before = *self;
                self.asns.push(asn);
                self.alive.push(true);
                self.links.push(Vec::new());
                self.index.insert(asn, h);
                assert forall|g: int| #[trigger] self.live(g) implies self.index@.contains_key(
                    self.asns@[g],
                ) && self.index@[self.asns@[g]] == g by {
                    if g < h {
                        assert(before.live(g));
                    }
                }
                assert forall|g: int, i: int|
                    0 <= g < self.asns@.len() && 0 <= i < self.links@[g]@.len() implies #[trigger] self.links@[g]@[i].to
                    < self.asns@.len() by {
                    if g < h {
                        assert(before.links@[g]@[i].to < before.asns@.len());
                    }
                }
                assert(self@.edges =~= before@.edges) by {
                    assert forall|e: (u32, u32, RelKind)| self@.edges.contains(e) implies before@.edges.contains(e) by {
                        let (g, i) = choose|g: int, i: int| #[trigger] self.link_is(g, i, e.0, e.1, e.2);
                        assert(before.link_is(g, i, e.0, e.1, e.2));
                    }
                    assert forall|e: (u32, u32, RelKind)| before@.edges.contains(e) implies self@.edges.contains(e) by {
                        let (g, i) = choose|g: int, i: int| #[trigger] before.link_is(g, i, e.0, e.1, e.2);
                        assert(self.link_is(g, i, e.0, e.1, e.2));
                    }
                }
                assert(self@.asns =~= before@.asns.insert(asn));
                h
            },
        }
    }
}

impl Topology {
    /// Adds the directed link `from -> to` of kind `k`, unless it is present.
    fn add_link(&mut self, from: usize, to: usize, k: RelKind)
        requires
            old(self).wf(),
            old(self).live(from as int),
            old(self).live(to as int),
        ensures
            final(self).wf(),
            final(self).slots() == old(self).slots(),
            forall|h: int| #[trigger] final(self).live(h) == old(self).live(h),
            forall|h: int| 0 <= h < old(self).slots() ==> #[trigger] final(self).asn_at(h) == old(self).asn_at(h),
            final(self)@.asns == old(self)@.asns,
            final(self)@.edges == old(self)@.edges.insert(
                (old(self).asn_at(from as int), old(self).asn_at(to as int), k),
            ),
    {
        let ghost before = *self;
        let ghost e = (self.asns@[from as int], self.asns@[to as int], k);
        let link = Link { to, kind: k };
        let mut i: usize = 0;
        let n = self.links[from].len();
        while i < n
            invariant
                0 <= i <= n,
                n == self.links@[from as int]@.len(),
                *self == before,
                before.wf(),
                before.live(from as int),
                before.live(to as int),
                e == (before.asns@[from as int], before.asns@[to as int], k),
                link == (Link { to, kind: k }),
                forall|j: int| 0 <= j < i ==> self.links@[from as int]@[j] != link,
            decreases n - i,
        {
            if self.links[from][i] == link {
                assert(self.link_is(from as int, i as int, e.0, e.1, e.2));
                assert(self@.edges.insert(e) =~= self@.edges);
                return;
            }
            i = i + 1;
        }
        self.links[from].push(link);
        assert forall|g: int| #[trigger] self.live(g) implies self.index@.contains_key(
            self.asns@[g],
        ) && self.index@[self.asns@[g]] == g by {
            assert(before.live(g));
        }
        assert forall|g: int, j: int|
            0 <= g < self.asns@.len() && 0 <= j < self.links@[g]@.len() implies #[trigger] self.links@[g]@[j].to
            < self.asns@.len() by {
            if g != from || j < n {
                assert(before.links@[g]@[j].to < before.asns@.len());
            }
        }
        assert(self@.edges =~= before@.edges.insert(e)) by {
            assert forall|x: (u32, u32, RelKind)| self@.edges.contains(x) implies before@.edges.insert(e).contains(x) by {
                let (g, j) = choose|g: int, j: int| #[trigger] self.link_is(g, j, x.0, x.1, x.2);
                if g != from || j < n {
                    assert(before.link_is(g, j, x.0, x.1, x.2));
                }
            }
            assert forall|x: (u32, u32, RelKind)| before@.edges.insert(e).contains(x) implies self@.edges.contains(x) by {
                if x == e {
                    assert(self.link_is(from as int, n as int, x.0, x.1, x.2));
                } else {
                    let (g, j) = choose|g: int, j: int| #[trigger] before.link_is(g, j, x.0, x.1, x.2);
                    assert(self.link_is(g, j, x.0, x.1, x.2));
                }
            }
        }
    }

    /// Records the relationship `(a, b, k)` and its inverse `(b, a, k⁻¹)`,
    /// adding nodes for `a` and `b` where absent. Adding a relationship that
    /// is already present changes nothing.
    pub fn add_relationship(&mut self, a: u32, b: u32, k: RelKind)
        requires
            old(self).wf(),
            old(self).slots() + 2 < usize::MAX,
        ensures
            final(self).wf(),
            final(self).slots() <= old(self).slots() + 2,
            final(self)@ == old(self)@.with_rel(a, b, k),
    {
        let ha = self.handle_or_insert(a);
        let hb = self.handle_or_insert(b);
        assert(self.live(ha as int));
        let ka = k.inverse();
        self.add_link(ha, hb, k);
        self.add_link(hb, ha, ka);
        assert(self@.asns =~= old(self)@.with_rel(a, b, k).asns);
        assert(self@.edges =~= old(self)@.with_rel(a, b, k).edges);
    }
}

impl Topology {
    /// Deletes the node of `asn` and every edge incident to it; nothing
    /// happens where `asn` is absent.
    pub fn remove(&mut self, asn: u32)
        requires
            old(self).wf(),
        ensures
            final(self).wf(),
            final(self).slots() == old(self).slots(),
            final(self)@ == old(self)@.without(asn),
    {
        let ghost before = *self;
        match self.index.get(&asn) {
            None => {
                assert(self@.asns =~= before@.without(asn).asns);
                assert(self@.edges =~= before@.without(asn).edges) by {
                    assert forall|x: (u32, u32, RelKind)| self@.edges.contains(x) implies x.0 != asn && x.1 != asn by {
                        let (g, j) = choose|g: int, j: int| #[trigger] self.link_is(g, j, x.0, x.1, x.2);
                        assert(self.index@.contains_key(self.asns@[g]));
                        let t = self.link_at(g, j).to as int;
                        assert(self.index@.contains_key(self.asns@[t]));
                    }
                }
            },
            Some(hr) => {
                let h = *hr;
                self.alive.set(h, false);
                self.index.remove(&asn);
                assert forall|a: u32| #[trigger] self.index@.contains_key(a) implies self.live(
                    self.index@[a] as int,
                ) && self.asns@[self.index@[a] as int] == a by {
                    assert(before.index@.contains_key(a));
                }
                assert forall|g: int| #[trigger] self.live(g) implies self.index@.contains_key(
                    self.asns@[g],
                ) && self.index@[self.asns@[g]] == g by {
                    assert(before.live(g));
                }
                assert forall|g: int, j: int|
                    0 <= g < self.asns@.len() && 0 <= j < self.links@[g]@.len() implies #[trigger] self.links@[g]@[j].to
                    < self.asns@.len() by {
                    assert(before.links@[g]@[j].to < before.asns@.len());
                }
                assert(self@.asns =~= before@.without(asn).asns);
                assert(self@.edges =~= before@.without(asn).edges) by {
                    assert forall|x: (u32, u32, RelKind)| self@.edges.contains(x) implies before@.without(asn).edges.contains(x) by {
                        let (g, j) = choose|g: int, j: int| #[trigger] self.link_is(g, j, x.0, x.1, x.2);
                        assert(before.link_is(g, j, x.0, x.1, x.2));
                        let t = self.link_at(g, j).to as int;
                        assert(before.live(g) && before.live(t));
                    }
                    assert forall|x: (u32, u32, RelKind)| before@.without(asn).edges.contains(x) implies self@.edges.contains(x) by {
                        let (g, j) = choose|g: int, j: int| #[trigger] before.link_is(g, j, x.0, x.1, x.2);
                        assert(self.link_is(g, j, x.0, x.1, x.2));
                    }
                }
            },
        }
    }

    /// The AS numbers of all live nodes, each once.
    pub fn all_asns(&self) -> (r: Vec<u32>)
        requires
            self.wf(),
        ensures
            r@.to_set() == self@.asns,
            r@.no_duplicates(),
    {
        let mut r: Vec<u32> = Vec::new();
        let mut h: usize = 0;
        while h < self.asns.len()
            invariant
                self.wf(),
                0 <= h <= self.asns@.len(),
                r@.no_duplicates(),
                forall|x: u32| #[trigger] r@.contains(x) <==> exists|g: int| 0 <= g < h && #[trigger] self.live(g) && self.asn_at(g) == x,
            decreases self.asns@.len() - h,
        {
            if self.alive[h] {
                let x = self.asns[h];
                assert(!r@.contains(x)) by {
                    if r@.contains(x) {
                        let g = choose|g: int| 0 <= g < h && #[trigger] self.live(g) && self.asn_at(g) == x;
                        self.lemma_handle_of(h as int);
                    }
                }
                let ghost r0 = r@;
                r.push(x);
                assert forall|y: u32| #[trigger] r@.contains(y) <==> exists|g: int| 0 <= g < h + 1 && #[trigger] self.live(g) && self.asn_at(g) == y by {
                    if r@.contains(y) && y != x {
                        let j = choose|j: int| 0 <= j < r@.len() && r@[j] == y;
                        assert(r0[j] == y);
                        assert(r0.contains(y));
                    }
                    if r0.contains(y) {
                        let j = choose|j: int| 0 <= j < r0.len() && r0[j] == y;
                        assert(r@[j] == y);
                    }
                    if y == x {
                        assert(r@[r@.len() - 1] == x);
                        assert(self.live(h as int));
                    }
                }
            }
            h = h + 1;
        }
        assert forall|x: u32| r@.to_set().contains(x) <==> self@.asns.contains(x) by {
            if self@.asns.contains(x) {
                assert(self.live(self.index@[x] as int));
            }
            if r@.contains(x) {
                let g = choose|g: int| 0 <= g < h && #[trigger] self.live(g) && self.asn_at(g) == x;
                self.lemma_handle_of(g);
            }
        }
        assert(r@.to_set() =~= self@.asns);
        r
    }
}

impl Topology {
    /// The direct providers of `asn`; an error where `asn` is absent.
    pub fn providers_of(&self, asn: u32) -> (r: Result<Vec<u32>, TopologyError>)
        requires
            self.wf(),
        ensures
            r is Err <==> !self@.asns.contains(asn),
            r matches Err(e) ==> e == (TopologyError::UnknownAsn { asn }),
            r matches Ok(v) ==> v@.to_set() == self@.providers(asn),
    {
        let h = match self.index_of(asn) {
            None => return Err(TopologyError::UnknownAsn { asn }),
            Some(h) => h,
        };
        let mut r: Vec<u32> = Vec::new();
        let n = self.links[h].len();
        let mut i: usize = 0;
        while i < n
            invariant
                self.wf(),
                self.live(h as int),
                self.asn_at(h as int) == asn,
                n == self.degree(h as int),
                0 <= i <= n,
                forall|x: u32| #[trigger] r@.contains(x) <==> exists|j: int| 0 <= j < i && #[trigger] self.link_is(h as int, j, asn, x, RelKind::CustomerToProvider),
            decreases n - i,
        {
            let link = self.links[h][i];
            assert(self.link_at(h as int, i as int) == link);
            if link.kind == RelKind::CustomerToProvider && self.alive[link.to] {
                let x = self.asns[link.to];
                let ghost r0 = r@;
                r.push(x);
                assert(self.link_is(h as int, i as int, asn, x, RelKind::CustomerToProvider));
                assert forall|y: u32| #[trigger] r@.contains(y) <==> exists|j: int| 0 <= j < i + 1 && #[trigger] self.link_is(h as int, j, asn, y, RelKind::CustomerToProvider) by {
                    if r@.contains(y) && y != x {
                        let j = choose|j: int| 0 <= j < r@.len() && r@[j] == y;
                        assert(r0[j] == y);
                    }
                    if r0.contains(y) {
                        let j = choose|j: int| 0 <= j < r0.len() && r0[j] == y;
                        assert(r@[j] == y);
                    }
                    if y == x {
                        assert(r@[r@.len() - 1] == x);
                    }
                }
            } else {
                assert forall|y: u32| #[trigger] r@.contains(y) <==> exists|j: int| 0 <= j < i + 1 && #[trigger] self.link_is(h as int, j, asn, y, RelKind::CustomerToProvider) by {
                    if exists|j: int| 0 <= j < i + 1 && #[trigger] self.link_is(h as int, j, asn, y, RelKind::CustomerToProvider) {
                        let j = choose|j: int| 0 <= j < i + 1 && #[trigger] self.link_is(h as int, j, asn, y, RelKind::CustomerToProvider);
                        assert(j != i);
                    }
                }
            }
            i = i + 1;
        }
        assert(r@.to_set() =~= self@.providers(asn)) by {
            assert forall|x: u32| self@.providers(asn).contains(x) implies r@.contains(x) by {
                let (g, j) = choose|g: int, j: int| #[trigger] self.link_is(g, j, asn, x, RelKind::CustomerToProvider);
                self.lemma_handle_of(g);
                assert(g == h);
            }
            assert forall|x: u32| r@.contains(x) implies self@.providers(asn).contains(x) by {
                let j = choose|j: int| 0 <= j < n && #[trigger] self.link_is(h as int, j, asn, x, RelKind::CustomerToProvider);
                let e = (asn, x, RelKind::CustomerToProvider);
                assert(self.link_is(h as int, j, e.0, e.1, e.2));
                assert(self@.edges.contains(e));
            }
        }
        Ok(r)
    }
}

impl Topology {
    /// The topology of an edge list: each relationship in both directions.
    pub fn from_edges(rels: &Vec<Relationship>) -> (t: Topology)
        requires
            2 * rels@.len() + 2 < usize::MAX,
        ensures
            t.wf(),
            t@ == built(rels@),
            t@.asns == mentioned(rels@),
    {
        let mut t = Topology::new();
        let mut i: usize = 0;
        assert(t@ == built(rels@.take(0)));
        while i < rels.len()
            invariant
                0 <= i <= rels@.len(),
                2 * rels@.len() + 2 < usize::MAX,
                t.wf(),
                t.slots() <= 2 * i,
                t@ == built(rels@.take(i as int)),
            decreases rels@.len() - i,
        {
            let r = rels[i];
            t.add_relationship(r.a, r.b, r.kind);
            assert(rels@.take(i + 1).drop_last() == rels@.take(i as int));
            i = i + 1;
        }
        assert(rels@.take(rels@.len() as int) == rels@);
        proof {
            lemma_built_asns(rels@);
        }
        t
    }
}

impl Topology {
    /// The number of handles ever given out, live or not.
    pub fn slot_count(&self) -> (r: usize)
        requires
            self.wf(),
        ensures
            r == self.slots(),
    {
        self.asns.len()
    }

    pub fn is_live(&self, h: usize) -> (r: bool)
        requires
            self.wf(),
            h < self.slots(),
        ensures
            r == self.live(h as int),
    {
        self.alive[h]
    }

    pub fn asn_of(&self, h: usize) -> (r: u32)
        requires
            self.wf(),
            h < self.slots(),
        ensures
            r == self.asn_at(h as int),
    {
        self.asns[h]
    }

    pub fn degree_of(&self, h: usize) -> (r: usize)
        requires
            self.wf(),
            h < self.slots(),
        ensures
            r == self.degree(h as int),
    {
        self.links[h].len()
    }

    pub fn link(&self, h: usize, i: usize) -> (r: Link)
        requires
            self.wf(),
            h < self.slots(),
            i < self.degree(h as int),
        ensures
            r == self.link_at(h as int, i as int),
            r.to < self.slots(),
    {
        self.links[h][i]
    }

    /// An edge of the view is a link between live nodes, and conversely.
    pub proof fn lemma_edges(&self, e: (u32, u32, RelKind))
        requires
            self.wf(),
        ensures
            self@.edges.contains(e) <==> exists|h: int, i: int| #[trigger] self.link_is(h, i, e.0, e.1, e.2),
            self@.edges.contains(e) ==> self@.asns.contains(e.0) && self@.asns.contains(e.1),
    {
        if self@.edges.contains(e) {
            let (h, i) = choose|h: int, i: int| #[trigger] self.link_is(h, i, e.0, e.1, e.2);
            self.lemma_handle_of(h);
            self.lemma_handle_of(self.link_at(h, i).to as int);
        }
    }

    /// A link between live nodes is an edge of the view.
    pub proof fn lemma_link_edge(&self, h: int, i: int, a: u32, b: u32, k: RelKind)
        requires
            self.wf(),
            self.link_is(h, i, a, b, k),
        ensures
            self@.edges.contains((a, b, k)),
    {
        let e = (a, b, k);
        assert(self.link_is(h, i, e.0, e.1, e.2));
    }

    pub proof fn lemma_link_bound(&self, h: int, i: int)
        requires
            self.wf(),
            0 <= h < self.slots(),
            0 <= i < self.degree(h),
        ensures
            self.link_at(h, i).to < self.slots(),
    {
    }

    pub proof fn lemma_asns_finite(&self)
        requires
            self.wf(),
        ensures
            self@.asns.finite(),
    {
    }
}

impl Topology {
    /// Adds a node for `asn`, unless one is present.
    pub fn add_node(&mut self, asn: u32)
        requires
            old(self).wf(),
            old(self).slots() + 2 < usize::MAX,
        ensures
            final(self).wf(),
            final(self)@.asns == old(self)@.asns.insert(asn),
            final(self)@.edges == old(self)@.edges,
            final(self).slots() - final(self)@.asns.len() == old(self).slots() - old(self)@.asns.len(),
    {
        self.handle_or_insert(asn);
    }

    /// Adds the single directed edge `(a, b, k)`, and nodes for `a` and `b`
    /// where absent.
    pub fn add_edge(&mut self, a: u32, b: u32, k: RelKind)
        requires
            old(self).wf(),
            old(self).slots() + 2 < usize::MAX,
        ensures
            final(self).wf(),
            final(self)@.asns == old(self)@.asns.insert(a).insert(b),
            final(self)@.edges == old(self)@.edges.insert((a, b, k)),
            final(self).slots() - final(self)@.asns.len() == old(self).slots() - old(self)@.asns.len(),
    {
        let ha = self.handle_or_insert(a);
        let hb = self.handle_or_insert(b);
        assert(self.live(ha as int));
        self.add_link(ha, hb, k);
    }
}

impl View for Topology {
    type V = TopoView;

    open spec fn view(&self) -> TopoView {
        self.topo_view()
    }
}

} // verus!
