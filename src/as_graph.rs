use vstd::hash_map::HashMapWithView;
use vstd::prelude::*;

use crate::bgp::Relationships;
use crate::constructor::{
    ASGraphInfo, CustomerProviderLink, PeerLink, has_cp_link, has_peer_link, in_cp_links, in_peer_links,
};

verus! {

/// One autonomous system of the topology. Its neighbours are held by ASN,
/// which is the node's stable identity in the graph that owns it.
#[derive(Debug, Clone)]
pub struct AutonomousSystem {
    pub asn: u32,
    pub input_clique: bool,
    pub ixp: bool,
    pub peers: Vec<u32>,
    pub providers: Vec<u32>,
    pub customers: Vec<u32>,
    pub propagation_rank: Option<u32>,
}

impl AutonomousSystem {
    /// Number of neighbours over all three relations.
    pub open spec fn degree(&self) -> int {
        (self.customers@.len() + self.peers@.len() + self.providers@.len()) as int
    }

    pub open spec fn spec_is_stub(&self) -> bool {
        self.degree() == 1
    }

    pub open spec fn spec_is_multihomed(&self) -> bool {
        self.customers@.len() == 0 && self.peers@.len() + self.providers@.len() > 1
    }

    pub open spec fn spec_is_transit(&self) -> bool {
        self.customers@.len() > 0 && self.degree() > 1
    }

    pub fn new(asn: u32, input_clique: bool, ixp: bool) -> (r: Self)
        ensures
            r.asn == asn,
            r.input_clique == input_clique,
            r.ixp == ixp,
            r.peers@.len() == 0,
            r.providers@.len() == 0,
            r.customers@.len() == 0,
            r.propagation_rank is None,
    {
        AutonomousSystem {
            asn,
            input_clique,
            ixp,
            peers: Vec::new(),
            providers: Vec::new(),
            customers: Vec::new(),
            propagation_rank: None,
        }
    }

    pub fn is_stub(&self) -> (r: bool)
        ensures
            r == self.spec_is_stub(),
    {
        self.customers.len() as u128 + self.peers.len() as u128 + self.providers.len() as u128 == 1
    }

    pub fn is_multihomed(&self) -> (r: bool)
        ensures
            r == self.spec_is_multihomed(),
    {
        self.customers.len() == 0 && self.peers.len() as u128 + self.providers.len() as u128 > 1
    }

    pub fn is_transit(&self) -> (r: bool)
        ensures
            r == self.spec_is_transit(),
    {
        self.customers.len() != 0
            && self.customers.len() as u128 + self.peers.len() as u128 + self.providers.len() as u128 > 1
    }

    /// All neighbours: customers, then peers, then providers.
    pub fn neighbors(&self) -> (r: Vec<u32>)
        ensures
            r@ == self.customers@ + self.peers@ + self.providers@,
    {
        let mut r: Vec<u32> = Vec::new();
        append_all(&mut r, &self.customers);
        append_all(&mut r, &self.peers);
        append_all(&mut r, &self.providers);
        r
    }

    pub fn neighbor_asns(&self) -> (r: Vec<u32>)
        ensures
            r@ == self.customers@ + self.peers@ + self.providers@,
    {
        self.neighbors()
    }
}

/// Appends the elements of `src` to `dst`.
fn append_all(dst: &mut Vec<u32>, src: &Vec<u32>)
    ensures
        final(dst)@ == old(dst)@ + src@,
{
    let mut i: usize = 0;
    while i < src.len()
        invariant
            i <= src@.len(),
            dst@ == old(dst)@ + src@.take(i as int),
        decreases src.len() - i,
    {
        dst.push(src[i]);
        i = i + 1;
        assert(dst@ =~= old(dst)@ + src@.take(i as int));
    }
    assert(src@.take(src@.len() as int) =~= src@);
}


/// `s` with `x` added at the end unless it is already there.
pub open spec fn added(s: Seq<u32>, x: u32) -> Seq<u32> {
    if s.contains(x) {
        s
    } else {
        s.push(x)
    }
}

fn push_unique(v: &mut Vec<u32>, x: u32)
    ensures
        final(v)@ == added(old(v)@, x),
{
    let mut i: usize = 0;
    while i < v.len()
        invariant
            i <= v@.len(),
            v@ == old(v)@,
            forall|j: int| 0 <= j < i ==> v@[j] != x,
        decreases v.len() - i,
    {
        if v[i] == x {
            return;
        }
        i = i + 1;
    }
    v.push(x);
}

proof fn lemma_take_contains(s: Seq<u32>, i: int)
    requires
        0 <= i < s.len(),
    ensures
        forall|a: u32| #[trigger] s.take(i + 1).contains(a) == (s.take(i).contains(a) || a == s[i]),
{
    let t = s.take(i + 1);
    let u = s.take(i);
    assert forall|a: u32| #[trigger] t.contains(a) == (u.contains(a) || a == s[i]) by {
        if t.contains(a) && a != s[i] {
            let k = choose|k: int| 0 <= k < t.len() && t[k] == a;
            assert(u[k] == a);
        }
        if u.contains(a) {
            let k = choose|k: int| 0 <= k < u.len() && u[k] == a;
            assert(t[k] == a);
        }
        assert(t[i] == s[i]);
    }
}

proof fn lemma_added(s: Seq<u32>, x: u32)
    requires
        s.no_duplicates(),
    ensures
        added(s, x).no_duplicates(),
        forall|y: u32| #[trigger] added(s, x).contains(y) == (s.contains(y) || y == x),
{
    if !s.contains(x) {
        let t = s.push(x);
        assert forall|y: u32| #[trigger] t.contains(y) == (s.contains(y) || y == x) by {
            if t.contains(y) && y != x {
                let k = choose|k: int| 0 <= k < t.len() && t[k] == y;
                assert(s[k] == y);
            }
            if s.contains(y) {
                let k = choose|k: int| 0 <= k < s.len() && s[k] == y;
                assert(t[k] == y);
            }
            assert(t[s.len() as int] == x);
        }
    }
}

proof fn lemma_cp_take(s: Seq<CustomerProviderLink>, i: int)
    requires
        0 <= i < s.len(),
    ensures
        forall|c: u32, p: u32| #[trigger] has_cp_link(s.take(i + 1), c, p) == (has_cp_link(s.take(i), c, p)
            || (s[i].customer_asn == c && s[i].provider_asn == p)),
{
    let t = s.take(i + 1);
    let u = s.take(i);
    assert forall|c: u32, p: u32| #[trigger] has_cp_link(t, c, p) == (has_cp_link(u, c, p)
        || (s[i].customer_asn == c && s[i].provider_asn == p)) by {
        if has_cp_link(t, c, p) {
            let k = choose|k: int| 0 <= k < t.len() && t[k].customer_asn == c && t[k].provider_asn == p;
            if k < i {
                assert(u[k] == t[k]);
            }
        }
        if has_cp_link(u, c, p) {
            let k = choose|k: int| 0 <= k < u.len() && u[k].customer_asn == c && u[k].provider_asn == p;
            assert(t[k] == u[k]);
        }
        if s[i].customer_asn == c && s[i].provider_asn == p {
            assert(t[i] == s[i]);
        }
    }
}

proof fn lemma_peer_take(s: Seq<PeerLink>, i: int)
    requires
        0 <= i < s.len(),
    ensures
        forall|x: u32, y: u32| #[trigger] has_peer_link(s.take(i + 1), x, y) == (has_peer_link(s.take(i), x, y)
            || (s[i].peer1_asn == x && s[i].peer2_asn == y) || (s[i].peer1_asn == y && s[i].peer2_asn == x)),
{
    let t = s.take(i + 1);
    let u = s.take(i);
    assert forall|x: u32, y: u32| #[trigger] has_peer_link(t, x, y) == (has_peer_link(u, x, y)
        || (s[i].peer1_asn == x && s[i].peer2_asn == y) || (s[i].peer1_asn == y && s[i].peer2_asn == x)) by {
        if has_peer_link(t, x, y) {
            let k = choose|k: int| 0 <= k < t.len() && ((t[k].peer1_asn == x && t[k].peer2_asn == y) || (t[k].peer1_asn == y
                && t[k].peer2_asn == x));
            if k < i {
                assert(u[k] == t[k]);
            }
        }
        if has_peer_link(u, x, y) {
            let k = choose|k: int| 0 <= k < u.len() && ((u[k].peer1_asn == x && u[k].peer2_asn == y) || (u[k].peer1_asn == y
                && u[k].peer2_asn == x));
            assert(t[k] == u[k]);
        }
        if (s[i].peer1_asn == x && s[i].peer2_asn == y) || (s[i].peer1_asn == y && s[i].peer2_asn == x) {
            assert(t[i] == s[i]);
        }
    }
}

/// A sequence of distinct ASNs has at most 2^32 elements.
proof fn lemma_distinct_u32_bound(s: Seq<u32>)
    requires
        s.no_duplicates(),
    ensures
        s.len() <= 0x1_0000_0000,
{
    let t = s.map_values(|x: u32| x as int);
    assert(t.no_duplicates()) by {
        assert forall|i: int, j: int| 0 <= i < t.len() && 0 <= j < t.len() && i != j implies t[i] != t[j] by {
            assert(s[i] != s[j]);
        }
    }
    t.unique_seq_to_set();
    let full = vstd::set_lib::set_int_range(0, 0x1_0000_0000);
    vstd::set_lib::lemma_int_range(0, 0x1_0000_0000);
    assert(t.to_set().subset_of(full)) by {
        assert forall|v: int| t.to_set().contains(v) implies full.contains(v) by {
            let k = choose|k: int| 0 <= k < t.len() && t[k] == v;
            assert(t[k] == s[k] as int);
        }
    }
    vstd::set_lib::lemma_len_subset(t.to_set(), full);
}

/// No set of ASNs can hold only nodes that each have a customer in the set,
/// when `f` puts providers above customers: the set is empty.
proof fn lemma_descent(info: &ASGraphInfo, set: Set<u32>, f: spec_fn(u32) -> nat)
    requires
        info.orders_providers_above(f),
        forall|a: u32| #[trigger] set.contains(a) ==> exists|c: u32| set.contains(c) && info.customer_of(c, a),
    ensures
        forall|a: u32| !set.contains(a),
{
    assert forall|a: u32| !set.contains(a) by {
        if set.contains(a) {
            lemma_descent_bound(info, set, f, f(a) + 1);
        }
    }
}

proof fn lemma_descent_bound(info: &ASGraphInfo, set: Set<u32>, f: spec_fn(u32) -> nat, k: nat)
    requires
        info.orders_providers_above(f),
        forall|a: u32| #[trigger] set.contains(a) ==> exists|c: u32| set.contains(c) && info.customer_of(c, a),
    ensures
        forall|a: u32| #[trigger] set.contains(a) ==> f(a) >= k,
    decreases k,
{
    if k > 0 {
        lemma_descent_bound(info, set, f, (k - 1) as nat);
        assert forall|a: u32| #[trigger] set.contains(a) implies f(a) >= k by {
            let c = choose|c: u32| set.contains(c) && info.customer_of(c, a);
            assert(f(c) >= k - 1);
            assert(f(c) < f(a));
        }
    }
}

/// Why a topology could not be built.
#[derive(Debug, Clone, Copy, PartialEq, Eq, Structural)]
pub enum GraphError {
    /// The provider relation has a cycle, so no rank can be assigned.
    RankCycle,
}

/// A ranked graph built from `info` shows that its provider relation has
/// no cycle.
proof fn lemma_ranked_acyclic(g: &ASGraph, info: &ASGraphInfo)
    requires
        g.wf_index(),
        forall|a: u32| #[trigger] g.contains(a) <==> info.mentions(a),
        g.wired(info.customer_provider_links@, info.peer_links@),
        g.ranked(),
    ensures
        info.provider_acyclic(),
{
    let f = |a: u32| g.rank_of(a) as nat;
    assert forall|c: u32, p: u32| #[trigger] info.customer_of(c, p) implies f(c) < f(p) by {
        let cps = info.customer_provider_links@;
        let k = choose|k: int| 0 <= k < cps.len() && cps[k].customer_asn == c && cps[k].provider_asn == p;
        assert(in_cp_links(cps, c));
        assert(in_cp_links(cps, p));
        assert(g.contains(p));
        assert(g.contains(c));
        assert(g.node(p).customers@.contains(c));
    }
    assert(info.orders_providers_above(f));
}

/// A node as created, before any relation or rank is attached.
pub open spec fn bare(n: AutonomousSystem) -> bool {
    &&& n.providers@.len() == 0
    &&& n.customers@.len() == 0
    &&& n.peers@.len() == 0
    &&& n.propagation_rank is None
}

/// The ASNs of each named class of nodes.
#[derive(Debug, Clone)]
pub struct ASGroups {
    pub ixps: Vec<u32>,
    pub stubs: Vec<u32>,
    pub multihomed: Vec<u32>,
    pub transit: Vec<u32>,
}

/// The AS topology: an arena of nodes, found by ASN through `index`.
pub struct ASGraph {
    pub as_dict: Vec<AutonomousSystem>,
    pub index: HashMapWithView<u32, usize>,
    pub as_groups: ASGroups,
}

impl ASGraph {
    pub open spec fn contains(&self, a: u32) -> bool {
        self.index@.contains_key(a)
    }

    /// The node of ASN `a`.
    pub open spec fn node(&self, a: u32) -> AutonomousSystem {
        self.as_dict@[self.index@[a] as int]
    }

    /// `index` maps each ASN of the arena to its position, and nothing else.
    pub open spec fn wf_index(&self) -> bool {
        &&& forall|a: u32|
            #[trigger] self.index@.contains_key(a) ==> self.index@[a] < self.as_dict@.len()
                && self.as_dict@[self.index@[a] as int].asn == a
        &&& forall|i: int|
            0 <= i < self.as_dict@.len() ==> #[trigger] self.index@.contains_key(self.as_dict@[i].asn)
                && self.index@[self.as_dict@[i].asn] == i
    }

    /// The node of `asn`, if the graph has one.
    pub fn get_node(&self, asn: u32) -> (r: Option<&AutonomousSystem>)
        requires
            self.wf_index(),
        ensures
            r matches Some(n) ==> self.contains(asn) && *n == self.node(asn),
            r is None ==> !self.contains(asn),
    {
        match self.index.get(&asn) {
            Some(i) => Some(&self.as_dict[*i]),
            None => None,
        }
    }

    /// Position of the node of `asn`, created bare if the graph has none.
    fn ensure_node(&mut self, asn: u32) -> (idx: usize)
        requires
            old(self).wf_index(),
        ensures
            final(self).wf_index(),
            final(self).index@.dom() == old(self).index@.dom().insert(asn),
            final(self).index@[asn] == idx,
            idx < final(self).as_dict@.len(),
            forall|a: u32| #[trigger] old(self).contains(a) ==> final(self).node(a) == old(self).node(a),
            !old(self).contains(asn) ==> bare(final(self).node(asn)) && !final(self).node(asn).ixp
                && !final(self).node(asn).input_clique,
            final(self).as_groups == old(self).as_groups,
    {
        match self.index.get(&asn) {
            Some(i) => {
                let idx = *i;
                assert(self.index@.dom().insert(asn) =~= self.index@.dom());
                idx
            },
            None => {
                let idx = self.as_dict.len();
                self.as_dict.push(AutonomousSystem::new(asn, false, false));
                self.index.insert(asn, idx);
                assert(self.index@.dom() =~= old(self).index@.dom().insert(asn));
                assert forall|a: u32| #[trigger] old(self).contains(a) implies self.node(a) == old(self).node(a) by {
                    assert(a != asn);
                }
                assert forall|i: int| 0 <= i < self.as_dict@.len() implies #[trigger] self.index@.contains_key(self.as_dict@[i].asn)
                    && self.index@[self.as_dict@[i].asn] == i by {
                    if i < idx {
                        assert(old(self).as_dict@[i] == self.as_dict@[i]);
                    }
                }
                idx
            },
        }
    }

    /// Adds `x` to the `kind` relation of the node of `a` (providers,
    /// customers or peers), unless it is there already.
    fn push_relation(&mut self, a: u32, x: u32, kind: Relationships)
        requires
            old(self).wf_index(),
            old(self).contains(a),
            kind == Relationships::PROVIDERS || kind == Relationships::CUSTOMERS || kind == Relationships::PEERS,
        ensures
            final(self).wf_index(),
            final(self).index@ == old(self).index@,
            final(self).as_groups == old(self).as_groups,
            forall|b: u32| #[trigger] old(self).contains(b) && b != a ==> final(self).node(b) == old(self).node(b),
            final(self).node(a).asn == old(self).node(a).asn,
            final(self).node(a).ixp == old(self).node(a).ixp,
            final(self).node(a).input_clique == old(self).node(a).input_clique,
            final(self).node(a).propagation_rank == old(self).node(a).propagation_rank,
            final(self).node(a).providers@ == if kind == Relationships::PROVIDERS {
                added(old(self).node(a).providers@, x)
            } else {
                old(self).node(a).providers@
            },
            final(self).node(a).customers@ == if kind == Relationships::CUSTOMERS {
                added(old(self).node(a).customers@, x)
            } else {
                old(self).node(a).customers@
            },
            final(self).node(a).peers@ == if kind == Relationships::PEERS {
                added(old(self).node(a).peers@, x)
            } else {
                old(self).node(a).peers@
            },
    {
        let idx = match self.index.get(&a) {
            Some(i) => *i,
            None => return ,
        };
        let ghost mid = *self;
        match kind {
            Relationships::PROVIDERS => push_unique(&mut self.as_dict[idx].providers, x),
            Relationships::CUSTOMERS => push_unique(&mut self.as_dict[idx].customers, x),
            _ => push_unique(&mut self.as_dict[idx].peers, x),
        }
        proof {
            assert forall|b: u32| #[trigger] old(self).contains(b) && b != a implies self.node(b) == old(self).node(b) by {
                assert(mid.as_dict@[mid.index@[b] as int].asn == b);
            }
            assert forall|i: int| 0 <= i < self.as_dict@.len() implies #[trigger] self.index@.contains_key(self.as_dict@[i].asn)
                && self.index@[self.as_dict@[i].asn] == i by {
                assert(self.as_dict@[i].asn == mid.as_dict@[i].asn);
                assert(mid.index@.contains_key(mid.as_dict@[i].asn));
            }
            assert forall|b: u32| #[trigger] self.index@.contains_key(b) implies self.index@[b] < self.as_dict@.len()
                && self.as_dict@[self.index@[b] as int].asn == b by {
                assert(mid.index@.contains_key(b));
            }
        }
    }

    /// Every node's relations are exactly those that `cps` and `pls` give
    /// it, each held once.
    pub open spec fn wired(&self, cps: Seq<CustomerProviderLink>, pls: Seq<PeerLink>) -> bool {
        forall|a: u32| #[trigger] self.contains(a) ==> {
            &&& self.node(a).providers@.no_duplicates()
            &&& self.node(a).customers@.no_duplicates()
            &&& self.node(a).peers@.no_duplicates()
            &&& forall|x: u32| #[trigger] self.node(a).providers@.contains(x) <==> (a != x && has_cp_link(cps, a, x))
            &&& forall|x: u32| #[trigger] self.node(a).customers@.contains(x) <==> (a != x && has_cp_link(cps, x, a))
            &&& forall|x: u32| #[trigger] self.node(a).peers@.contains(x) <==> (a != x && has_peer_link(pls, a, x))
        }
    }

    /// Same nodes, with the same flags and ranks, as `g`.
    pub open spec fn same_labels(&self, g: &ASGraph) -> bool {
        &&& self.index@ == g.index@
        &&& self.as_groups == g.as_groups
        &&& forall|a: u32| #[trigger] self.contains(a) ==> {
            &&& self.node(a).ixp == g.node(a).ixp
            &&& self.node(a).input_clique == g.node(a).input_clique
            &&& self.node(a).propagation_rank == g.node(a).propagation_rank
        }
    }

    /// Attaches every customer-provider link to both of its ends, then every
    /// peer link; links of an AS to itself are ignored.
    fn add_relationships(&mut self, info: &ASGraphInfo)
        requires
            old(self).wf_index(),
            forall|a: u32| #[trigger] old(self).contains(a) <==> info.mentions(a),
            forall|a: u32| #[trigger] old(self).contains(a) ==> bare(old(self).node(a)),
        ensures
            final(self).wf_index(),
            final(self).same_labels(old(self)),
            final(self).wired(info.customer_provider_links@, info.peer_links@),
    {
        let ghost g0 = *self;
        let cps = &info.customer_provider_links;
        let pls = &info.peer_links;
        assert(self.wired(cps@.take(0), pls@.take(0)));
        let mut i: usize = 0;
        while i < cps.len()
            invariant
                self.wf_index(),
                self.same_labels(&g0),
                forall|a: u32| #[trigger] g0.contains(a) <==> info.mentions(a),
                cps == &info.customer_provider_links,
                pls == &info.peer_links,
                i <= cps@.len(),
                self.wired(cps@.take(i as int), pls@.take(0)),
            decreases cps.len() - i,
        {
            let link = cps[i];
            let c = link.customer_asn;
            let p = link.provider_asn;
            proof {
                lemma_cp_take(cps@, i as int);
                assert(cps@[i as int] == link);
                assert(in_cp_links(cps@, c));
                assert(in_cp_links(cps@, p));
                assert(g0.contains(c) && g0.contains(p));
            }
            if c != p {
                let ghost s0 = *self;
                self.push_relation(c, p, Relationships::PROVIDERS);
                let ghost s1 = *self;
                self.push_relation(p, c, Relationships::CUSTOMERS);
                proof {
                    let t = cps@.take(i + 1);
                    let u = cps@.take(i as int);
                    assert forall|a: u32| #[trigger] self.contains(a) implies {
                        &&& self.node(a).providers@.no_duplicates()
                        &&& self.node(a).customers@.no_duplicates()
                        &&& self.node(a).peers@.no_duplicates()
                        &&& forall|x: u32| #[trigger] self.node(a).providers@.contains(x) <==> (a != x && has_cp_link(t, a, x))
                        &&& forall|x: u32| #[trigger] self.node(a).customers@.contains(x) <==> (a != x && has_cp_link(t, x, a))
                        &&& forall|x: u32| #[trigger] self.node(a).peers@.contains(x) <==> (a != x && has_peer_link(pls@.take(0), a, x))
                    } by {
                        assert(s0.contains(a));
                        assert(s1.contains(a));
                        if a == c {
                            lemma_added(s0.node(a).providers@, p);
                            assert(s1.node(a) == self.node(a));
                        } else if a == p {
                            lemma_added(s1.node(a).customers@, c);
                            assert(s1.node(a) == s0.node(a));
                        } else {
                            assert(s1.node(a) == s0.node(a));
                            assert(self.node(a) == s1.node(a));
                        }
                    }
                    assert forall|a: u32| #[trigger] self.contains(a) implies {
                        &&& self.node(a).ixp == g0.node(a).ixp
                        &&& self.node(a).input_clique == g0.node(a).input_clique
                        &&& self.node(a).propagation_rank == g0.node(a).propagation_rank
                    } by {
                        assert(s0.contains(a));
                        assert(s1.contains(a));
                    }
                }
            } else {
                proof {
                    let t = cps@.take(i + 1);
                    assert forall|a: u32| #[trigger] self.contains(a) implies {
                        &&& forall|x: u32| #[trigger] self.node(a).providers@.contains(x) <==> (a != x && has_cp_link(t, a, x))
                        &&& forall|x: u32| #[trigger] self.node(a).customers@.contains(x) <==> (a != x && has_cp_link(t, x, a))
                    } by {
                    }
                }
            }
            i = i + 1;
        }
        assert(cps@.take(cps@.len() as int) =~= cps@);
        let mut i: usize = 0;
        while i < pls.len()
            invariant
                self.wf_index(),
                self.same_labels(&g0),
                forall|a: u32| #[trigger] g0.contains(a) <==> info.mentions(a),
                cps == &info.customer_provider_links,
                pls == &info.peer_links,
                i <= pls@.len(),
                self.wired(cps@, pls@.take(i as int)),
            decreases pls.len() - i,
        {
            let link = pls[i];
            let x = link.peer1_asn;
            let y = link.peer2_asn;
            proof {
                lemma_peer_take(pls@, i as int);
                assert(pls@[i as int] == link);
                assert(in_peer_links(pls@, x));
                assert(in_peer_links(pls@, y));
                assert(g0.contains(x) && g0.contains(y));
            }
            if x != y {
                let ghost s0 = *self;
                self.push_relation(x, y, Relationships::PEERS);
                let ghost s1 = *self;
                self.push_relation(y, x, Relationships::PEERS);
                proof {
                    let t = pls@.take(i + 1);
                    assert forall|a: u32| #[trigger] self.contains(a) implies {
                        &&& self.node(a).providers@.no_duplicates()
                        &&& self.node(a).customers@.no_duplicates()
                        &&& self.node(a).peers@.no_duplicates()
                        &&& forall|z: u32| #[trigger] self.node(a).providers@.contains(z) <==> (a != z && has_cp_link(cps@, a, z))
                        &&& forall|z: u32| #[trigger] self.node(a).customers@.contains(z) <==> (a != z && has_cp_link(cps@, z, a))
                        &&& forall|z: u32| #[trigger] self.node(a).peers@.contains(z) <==> (a != z && has_peer_link(t, a, z))
                    } by {
                        assert(s0.contains(a));
                        assert(s1.contains(a));
                        if a == x {
                            lemma_added(s0.node(a).peers@, y);
                            assert(s1.node(a) == self.node(a));
                        } else if a == y {
                            lemma_added(s1.node(a).peers@, x);
                            assert(s1.node(a) == s0.node(a));
                        } else {
                            assert(s1.node(a) == s0.node(a));
                            assert(self.node(a) == s1.node(a));
                        }
                    }
                    assert forall|a: u32| #[trigger] self.contains(a) implies {
                        &&& self.node(a).ixp == g0.node(a).ixp
                        &&& self.node(a).input_clique == g0.node(a).input_clique
                        &&& self.node(a).propagation_rank == g0.node(a).propagation_rank
                    } by {
                        assert(s0.contains(a));
                        assert(s1.contains(a));
                    }
                }
            }
            i = i + 1;
        }
        assert(pls@.take(pls@.len() as int) =~= pls@);
    }

    /// Marks the node of `asn`, created bare if missing, as an IXP (`ixp`)
    /// or as a member of the input clique (`!ixp`).
    fn mark(&mut self, asn: u32, ixp: bool)
        requires
            old(self).wf_index(),
        ensures
            final(self).wf_index(),
            final(self).index@.dom() == old(self).index@.dom().insert(asn),
            final(self).as_groups == old(self).as_groups,
            forall|a: u32| #[trigger] old(self).contains(a) && a != asn ==> final(self).node(a) == old(self).node(a),
            old(self).contains(asn) ==> final(self).node(asn) == if ixp {
                AutonomousSystem { ixp: true, ..old(self).node(asn) }
            } else {
                AutonomousSystem { input_clique: true, ..old(self).node(asn) }
            },
            !old(self).contains(asn) ==> bare(final(self).node(asn)) && final(self).node(asn).ixp == ixp
                && final(self).node(asn).input_clique == !ixp,
    {
        let idx = self.ensure_node(asn);
        let ghost mid = *self;
        if ixp {
            self.as_dict[idx].ixp = true;
        } else {
            self.as_dict[idx].input_clique = true;
        }
        proof {
            assert forall|a: u32| #[trigger] old(self).contains(a) && a != asn implies self.node(a) == old(self).node(a) by {
                assert(mid.contains(a));
                assert(mid.contains(asn));
                assert(mid.as_dict@[mid.index@[a] as int].asn == a);
                assert(mid.as_dict@[mid.index@[asn] as int].asn == asn);
            }
            assert forall|i: int| 0 <= i < self.as_dict@.len() implies #[trigger] self.index@.contains_key(self.as_dict@[i].asn)
                && self.index@[self.as_dict@[i].asn] == i by {
                assert(self.as_dict@[i].asn == mid.as_dict@[i].asn);
                assert(mid.index@.contains_key(mid.as_dict@[i].asn));
            }
            assert forall|a: u32| #[trigger] self.index@.contains_key(a) implies self.index@[a] < self.as_dict@.len()
                && self.as_dict@[self.index@[a] as int].asn == a by {
                assert(mid.index@.contains_key(a));
            }
        }
    }

    /// The rank given to the node at position `i` by `rank` is that of the
    /// longest customer chain below it, given the ranks of its customers.
    pub open spec fn rank_fits(&self, rank: Seq<u32>, i: int) -> bool {
        let n = self.as_dict@[i];
        &&& forall|c: u32| #[trigger] n.customers@.contains(c) ==> rank[i] >= rank[self.index@[c] as int] + 1
        &&& n.customers@.len() == 0 ==> rank[i] == 0
        &&& n.customers@.len() > 0 ==> exists|c: u32| #[trigger] n.customers@.contains(c) && rank[i] == rank[self.index@[c] as int] + 1
    }

    /// The node at position `i` is ranked, and so are its customers.
    pub open spec fn settled(&self, done: Seq<bool>, rank: Seq<u32>, i: int) -> bool {
        &&& self.rank_fits(rank, i)
        &&& forall|c: u32| #[trigger] self.as_dict@[i].customers@.contains(c) ==> done[self.index@[c] as int]
    }

    /// Whether every customer of the node at position `x` is ranked, and if
    /// so the rank that fits it.
    fn ready_rank(&self, x: usize, done: &Vec<bool>, rank: &Vec<u32>, finished: usize) -> (r: (bool, u32))
        requires
            self.wf_index(),
            x < self.as_dict@.len(),
            done@.len() == self.as_dict@.len(),
            rank@.len() == self.as_dict@.len(),
            forall|c: u32| #[trigger] self.as_dict@[x as int].customers@.contains(c) ==> self.contains(c),
            forall|i: int| 0 <= i < done@.len() && #[trigger] done@[i] ==> rank@[i] < finished,
            finished < 0x1_0000_0000,
        ensures
            r.0 ==> (forall|c: u32| #[trigger] self.as_dict@[x as int].customers@.contains(c)
                ==> done@[self.index@[c] as int] && r.1 >= rank@[self.index@[c] as int] + 1),
            r.0 ==> (self.as_dict@[x as int].customers@.len() == 0 ==> r.1 == 0),
            r.0 ==> (self.as_dict@[x as int].customers@.len() > 0 ==> exists|c: u32|
                #[trigger] self.as_dict@[x as int].customers@.contains(c) && r.1 == rank@[self.index@[c] as int] + 1),
            r.0 ==> r.1 <= finished,
            !r.0 ==> exists|c: u32| #[trigger] self.as_dict@[x as int].customers@.contains(c)
                && !done@[self.index@[c] as int],
    {
        let customers = &self.as_dict[x].customers;
        let mut best: u32 = 0;
        let mut k: usize = 0;
        while k < customers.len()
            invariant
                self.wf_index(),
                customers == &self.as_dict@[x as int].customers,
                done@.len() == self.as_dict@.len(),
                rank@.len() == self.as_dict@.len(),
                forall|c: u32| #[trigger] customers@.contains(c) ==> self.contains(c),
                forall|i: int| 0 <= i < done@.len() && #[trigger] done@[i] ==> rank@[i] < finished,
                finished < 0x1_0000_0000,
                k <= customers@.len(),
                best <= finished,
                forall|m: int| 0 <= m < k ==> done@[self.index@[#[trigger] customers@[m]] as int]
                    && best >= rank@[self.index@[customers@[m]] as int] + 1,
                k == 0 ==> best == 0,
                k > 0 ==> exists|m: int| 0 <= m < k && best == rank@[self.index@[#[trigger] customers@[m]] as int] + 1,
            decreases customers.len() - k,
        {
            let c = customers[k];
            assert(customers@.contains(c));
            let ci = match self.index.get(&c) {
                Some(v) => *v,
                None => {
                    return (false, 0);
                },
            };
            if !done[ci] {
                return (false, 0);
            }
            let r = rank[ci] + 1;
            if k == 0 || r > best {
                best = r;
            }
            k = k + 1;
            assert(customers@[k - 1] == c);
        }
        proof {
            assert forall|c: u32| #[trigger] customers@.contains(c) implies done@[self.index@[c] as int]
                && best >= rank@[self.index@[c] as int] + 1 by {
                let m = choose|m: int| 0 <= m < customers@.len() && customers@[m] == c;
            }
            if customers@.len() > 0 {
                let m = choose|m: int| 0 <= m < k && best == rank@[self.index@[#[trigger] customers@[m]] as int] + 1;
                assert(customers@.contains(customers@[m]));
            }
        }
        (true, best)
    }

    /// Ranks every node, customers before providers: pass over the unranked
    /// nodes, ranking each whose customers are all ranked, until none is
    /// left (`Some`) or a pass ranks nothing (`None`: a provider cycle).
    fn compute_ranks(&self, Ghost(info): Ghost<&ASGraphInfo>) -> (r: Option<Vec<u32>>)
        requires
            self.wf_index(),
            forall|a: u32| #[trigger] self.contains(a) <==> info.mentions(a),
            self.wired(info.customer_provider_links@, info.peer_links@),
        ensures
            r is Some ==> r->0@.len() == self.as_dict@.len() && forall|i: int|
                0 <= i < self.as_dict@.len() ==> #[trigger] self.rank_fits(r->0@, i),
            r is None ==> !info.provider_acyclic(),
    {
        let n = self.as_dict.len();
        proof {
            let asns = self.as_dict@.map_values(|v: AutonomousSystem| v.asn);
            assert(asns.no_duplicates()) by {
                assert forall|i: int, j: int| 0 <= i < asns.len() && 0 <= j < asns.len() && i != j implies asns[i] != asns[j] by {
                    assert(self.index@.contains_key(self.as_dict@[i].asn));
                    assert(self.index@.contains_key(self.as_dict@[j].asn));
                }
            }
            lemma_distinct_u32_bound(asns);
        }
        proof {
            assert forall|i: int, c: u32| 0 <= i < n && #[trigger] self.as_dict@[i].customers@.contains(c) implies self.contains(c)
                && self.index@[c] != i && info.customer_of(c, self.as_dict@[i].asn) by {
                let a = self.as_dict@[i].asn;
                assert(self.contains(a));
                assert(self.node(a) == self.as_dict@[i]);
                assert(self.node(a).customers@.contains(c));
                assert(has_cp_link(info.customer_provider_links@, c, a));
                let k = choose|k: int| 0 <= k < info.customer_provider_links@.len()
                    && info.customer_provider_links@[k].customer_asn == c && info.customer_provider_links@[k].provider_asn == a;
                assert(in_cp_links(info.customer_provider_links@, c));
                assert(info.mentions(c));
                assert(self.contains(c));
                assert(self.as_dict@[self.index@[c] as int].asn == c);
            }
        }
        let mut done: Vec<bool> = Vec::new();
        let mut rank: Vec<u32> = Vec::new();
        let mut todo: Vec<usize> = Vec::new();
        let mut i: usize = 0;
        while i < n
            invariant
                n == self.as_dict@.len(),
                i <= n,
                done@.len() == i,
                rank@.len() == i,
                todo@ == Seq::new(i as nat, |k: int| k as usize),
                forall|k: int| 0 <= k < i ==> !done@[k],
            decreases n - i,
        {
            done.push(false);
            rank.push(0);
            todo.push(i);
            i = i + 1;
            assert(todo@ =~= Seq::new(i as nat, |k: int| k as usize));
        }
        let mut finished: usize = 0;
        proof {
            assert forall|k: int| 0 <= k < n implies (done@[k] <==> !todo@.contains(k as usize)) by {
                assert(todo@[k] == k as usize);
            }
        }
        loop
            invariant
                self.wf_index(),
                n == self.as_dict@.len(),
                n <= 0x1_0000_0000,
                forall|i: int, c: u32| 0 <= i < n && #[trigger] self.as_dict@[i].customers@.contains(c) ==> self.contains(c)
                    && self.index@[c] != i && info.customer_of(c, self.as_dict@[i].asn),
                done@.len() == n,
                rank@.len() == n,
                todo@.no_duplicates(),
                forall|k: int| 0 <= k < todo@.len() ==> #[trigger] todo@[k] < n,
                forall|k: int| 0 <= k < n ==> (#[trigger] done@[k] <==> !todo@.contains(k as usize)),
                finished + todo@.len() == n,
                forall|k: int| 0 <= k < n && #[trigger] done@[k] ==> self.settled(done@, rank@, k) && rank@[k] < finished,
            decreases todo@.len(),
        {
            if todo.len() == 0 {
                proof {
                    assert forall|k: int| 0 <= k < n implies #[trigger] self.rank_fits(rank@, k) by {
                        assert(done@[k]);
                    }
                }
                return Some(rank);
            }
            let mut next: Vec<usize> = Vec::new();
            let mut progressed = false;
            let mut j: usize = 0;
            assert(next@ + todo@.skip(0) =~= todo@);
            while j < todo.len()
                invariant
                    self.wf_index(),
                    n == self.as_dict@.len(),
                    n <= 0x1_0000_0000,
                    forall|i: int, c: u32| 0 <= i < n && #[trigger] self.as_dict@[i].customers@.contains(c) ==> self.contains(c)
                        && self.index@[c] != i && info.customer_of(c, self.as_dict@[i].asn),
                    done@.len() == n,
                    rank@.len() == n,
                    j <= todo@.len(),
                    forall|k: int| 0 <= k < todo@.len() ==> #[trigger] todo@[k] < n,
                    (next@ + todo@.skip(j as int)).no_duplicates(),
                    forall|k: int| 0 <= k < next@.len() ==> #[trigger] next@[k] < n,
                    forall|k: int| 0 <= k < n ==> (#[trigger] done@[k] <==> !(next@ + todo@.skip(j as int)).contains(k as usize)),
                    finished + next@.len() + (todo@.len() - j) == n,
                    progressed ==> next@.len() < j,
                    !progressed ==> next@.len() == j,
                    !progressed ==> forall|m: int| #![trigger next@[m]] 0 <= m < next@.len() ==> exists|c: u32|
                        #[trigger] self.as_dict@[next@[m] as int].customers@.contains(c) && !done@[self.index@[c] as int],
                    forall|k: int| 0 <= k < n && #[trigger] done@[k] ==> self.settled(done@, rank@, k) && rank@[k] < finished,
                decreases todo@.len() - j,
            {
                let x = todo[j];
                let ghost rest = next@ + todo@.skip(j as int);
                assert(todo@.skip(j as int) =~= seq![x] + todo@.skip(j + 1));
                assert(rest[next@.len() as int] == x);
                assert(!done@[x as int]);
                let ready = self.ready_rank(x, &done, &rank, finished);
                if ready.0 {
                    let ghost done0 = done@;
                    let ghost rank0 = rank@;
                    done.set(x, true);
                    rank.set(x, ready.1);
                    finished = finished + 1;
                    progressed = true;
                    proof {
                        let rest2 = next@ + todo@.skip(j + 1);
                        assert(rest =~= next@ + seq![x] + todo@.skip(j + 1));
                        assert forall|k: int| 0 <= k < n implies (#[trigger] done@[k] <==> !rest2.contains(k as usize)) by {
                            if rest2.contains(k as usize) {
                                let m = choose|m: int| 0 <= m < rest2.len() && rest2[m] == k as usize;
                                if m < next@.len() {
                                    assert(rest[m] == k as usize);
                                } else {
                                    assert(rest[m + 1] == k as usize);
                                }
                                if k == x as int {
                                    assert(rest[next@.len() as int] == x);
                                }
                            } else if k != x as int {
                                if rest.contains(k as usize) {
                                    let m = choose|m: int| 0 <= m < rest.len() && rest[m] == k as usize;
                                    if m < next@.len() {
                                        assert(rest2[m] == k as usize);
                                    } else if m > next@.len() {
                                        assert(rest2[m - 1] == k as usize);
                                    }
                                }
                            }
                        }
                        assert(rest2.no_duplicates()) by {
                            assert forall|p: int, q: int| 0 <= p < rest2.len() && 0 <= q < rest2.len() && p != q implies rest2[p] != rest2[q] by {
                                let pp = if p < next@.len() { p } else { p + 1 };
                                let qq = if q < next@.len() { q } else { q + 1 };
                                assert(rest2[p] == rest[pp]);
                                assert(rest2[q] == rest[qq]);
                            }
                        }
                        assert forall|k: int| 0 <= k < n && #[trigger] done@[k] implies self.settled(done@, rank@, k) && rank@[k] < finished by {
                            if k == x as int {
                                assert forall|c: u32| #[trigger] self.as_dict@[k].customers@.contains(c) implies rank@[k] >= rank@[self.index@[c] as int] + 1
                                    && done@[self.index@[c] as int] by {
                                    assert(done0[self.index@[c] as int]);
                                }
                                if self.as_dict@[k].customers@.len() > 0 {
                                    let c = choose|c: u32| #[trigger] self.as_dict@[x as int].customers@.contains(c) && ready.1 == rank0[self.index@[c] as int] + 1;
                                    assert(done0[self.index@[c] as int]);
                                    assert(rank@[self.index@[c] as int] == rank0[self.index@[c] as int]);
                                }
                            } else {
                                assert(done0[k]);
                                assert(self.settled(done0, rank0, k));
                                assert forall|c: u32| #[trigger] self.as_dict@[k].customers@.contains(c) implies rank@[k] >= rank@[self.index@[c] as int] + 1
                                    && done@[self.index@[c] as int] by {
                                    assert(done0[self.index@[c] as int]);
                                }
                                if self.as_dict@[k].customers@.len() > 0 {
                                    let c = choose|c: u32| #[trigger] self.as_dict@[k].customers@.contains(c) && rank0[k] == rank0[self.index@[c] as int] + 1;
                                    assert(done0[self.index@[c] as int]);
                                }
                            }
                        }
                    }
                } else {
                    let ghost next0 = next@;
                    next.push(x);
                    proof {
                        assert(next@ + todo@.skip(j + 1) =~= rest);
                        if !progressed {
                            assert forall|m: int| #![trigger next@[m]] 0 <= m < next@.len() implies exists|c: u32|
                                #[trigger] self.as_dict@[next@[m] as int].customers@.contains(c) && !done@[self.index@[c] as int] by {
                                if m < next0.len() {
                                    assert(next@[m] == next0[m]);
                                }
                            }
                        }
                    }
                }
                j = j + 1;
            }
            assert(todo@.skip(j as int) =~= Seq::<usize>::empty());
            assert(next@ + todo@.skip(j as int) =~= next@);
            if !progressed {
                proof {
                    assert(next@.len() > 0);
                    let x0 = next@[0];
                    assert(next@.contains(x0));
                    assert(!done@[x0 as int]);
                    let set = Set::new(|a: u32| self.contains(a) && !done@[self.index@[a] as int]);
                    assert forall|a: u32| #[trigger] set.contains(a) implies exists|c: u32| set.contains(c) && info.customer_of(c, a) by {
                        let xi = self.index@[a] as int;
                        assert(next@.contains(xi as usize));
                        let m = choose|m: int| 0 <= m < next@.len() && next@[m] == xi as usize;
                        let c = choose|c: u32| #[trigger] self.as_dict@[next@[m] as int].customers@.contains(c) && !done@[self.index@[c] as int];
                        assert(self.as_dict@[xi].asn == a);
                        assert(set.contains(c));
                    }
                    if info.provider_acyclic() {
                        let f = choose|f: spec_fn(u32) -> nat| #[trigger] info.orders_providers_above(f);
                        lemma_descent(info, set, f);
                        let a0 = self.as_dict@[x0 as int].asn;
                        assert(self.index@.contains_key(a0));
                        assert(set.contains(a0));
                    }
                }
                return None;
            }
            todo = next;
        }
    }

    /// Rank of the node of `a`.
    pub open spec fn rank_of(&self, a: u32) -> int {
        self.node(a).propagation_rank->0 as int
    }

    /// Every node has a rank: 0 without customers, else one more than the
    /// highest rank among its customers.
    pub open spec fn ranked(&self) -> bool {
        forall|a: u32| #[trigger] self.contains(a) ==> {
            &&& self.node(a).propagation_rank is Some
            &&& forall|c: u32| #[trigger] self.node(a).customers@.contains(c) ==> self.rank_of(a) >= self.rank_of(c) + 1
            &&& self.node(a).customers@.len() == 0 ==> self.rank_of(a) == 0
            &&& self.node(a).customers@.len() > 0 ==> exists|c: u32|
                #[trigger] self.node(a).customers@.contains(c) && self.rank_of(a) == self.rank_of(c) + 1
        }
    }

    /// Stores `rank[i]` as the rank of the node at position `i`.
    fn store_ranks(&mut self, rank: &Vec<u32>)
        requires
            old(self).wf_index(),
            rank@.len() == old(self).as_dict@.len(),
            forall|i: int| 0 <= i < rank@.len() ==> #[trigger] old(self).rank_fits(rank@, i),
            forall|i: int, c: u32| 0 <= i < rank@.len() && #[trigger] old(self).as_dict@[i].customers@.contains(c)
                ==> old(self).contains(c),
        ensures
            final(self).wf_index(),
            final(self).index@ == old(self).index@,
            final(self).as_groups == old(self).as_groups,
            forall|a: u32| #[trigger] final(self).contains(a) ==> {
                &&& final(self).node(a).ixp == old(self).node(a).ixp
                &&& final(self).node(a).input_clique == old(self).node(a).input_clique
                &&& final(self).node(a).providers == old(self).node(a).providers
                &&& final(self).node(a).customers == old(self).node(a).customers
                &&& final(self).node(a).peers == old(self).node(a).peers
            },
            final(self).ranked(),
    {
        let ghost g0 = *self;
        let mut i: usize = 0;
        while i < self.as_dict.len()
            invariant
                self.index@ == g0.index@,
                self.as_groups == g0.as_groups,
                self.as_dict@.len() == g0.as_dict@.len(),
                rank@.len() == g0.as_dict@.len(),
                i <= g0.as_dict@.len(),
                forall|k: int| 0 <= k < g0.as_dict@.len() ==> #[trigger] self.as_dict@[k] == if k < i {
                    AutonomousSystem { propagation_rank: Some(rank@[k]), ..g0.as_dict@[k] }
                } else {
                    g0.as_dict@[k]
                },
            decreases g0.as_dict@.len() - i,
        {
            let r = rank[i];
            self.as_dict[i].propagation_rank = Some(r);
            i = i + 1;
        }
        proof {
            assert forall|k: int| 0 <= k < self.as_dict@.len() implies #[trigger] self.index@.contains_key(self.as_dict@[k].asn)
                && self.index@[self.as_dict@[k].asn] == k by {
                assert(self.as_dict@[k].asn == g0.as_dict@[k].asn);
                assert(g0.index@.contains_key(g0.as_dict@[k].asn));
            }
            assert forall|a: u32| #[trigger] self.index@.contains_key(a) implies self.index@[a] < self.as_dict@.len()
                && self.as_dict@[self.index@[a] as int].asn == a by {
                assert(g0.index@.contains_key(a));
            }
            assert forall|a: u32| #[trigger] self.contains(a) implies {
                &&& self.node(a).propagation_rank is Some
                &&& forall|c: u32| #[trigger] self.node(a).customers@.contains(c) ==> self.rank_of(a) >= self.rank_of(c) + 1
                &&& self.node(a).customers@.len() == 0 ==> self.rank_of(a) == 0
                &&& self.node(a).customers@.len() > 0 ==> exists|c: u32|
                    #[trigger] self.node(a).customers@.contains(c) && self.rank_of(a) == self.rank_of(c) + 1
            } by {
                let ia = self.index@[a] as int;
                assert(g0.index@.contains_key(a));
                assert(g0.rank_fits(rank@, ia));
                assert forall|c: u32| #[trigger] self.node(a).customers@.contains(c) implies self.rank_of(a) >= self.rank_of(c) + 1 by {
                    assert(g0.as_dict@[ia].customers@.contains(c));
                    assert(g0.contains(c));
                    let ic = self.index@[c] as int;
                    assert(self.as_dict@[ic] == AutonomousSystem { propagation_rank: Some(rank@[ic]), ..g0.as_dict@[ic] });
                }
                if self.node(a).customers@.len() > 0 {
                    let c = choose|c: u32| #[trigger] g0.as_dict@[ia].customers@.contains(c) && rank@[ia] == rank@[g0.index@[c] as int] + 1;
                    assert(g0.contains(c));
                    let ic = self.index@[c] as int;
                    assert(self.as_dict@[ic] == AutonomousSystem { propagation_rank: Some(rank@[ic]), ..g0.as_dict@[ic] });
                    assert(self.node(a).customers@.contains(c));
                }
            }
        }
    }

    /// Each group holds, once each, the ASNs of the nodes of its class.
    pub open spec fn grouped(&self) -> bool {
        &&& self.as_groups.ixps@.no_duplicates()
        &&& self.as_groups.stubs@.no_duplicates()
        &&& self.as_groups.multihomed@.no_duplicates()
        &&& self.as_groups.transit@.no_duplicates()
        &&& forall|a: u32| #[trigger] self.as_groups.ixps@.contains(a) <==> self.contains(a) && self.node(a).ixp
        &&& forall|a: u32| #[trigger] self.as_groups.stubs@.contains(a) <==> self.contains(a) && self.node(a).spec_is_stub()
        &&& forall|a: u32| #[trigger] self.as_groups.multihomed@.contains(a) <==> self.contains(a)
            && self.node(a).spec_is_multihomed()
        &&& forall|a: u32| #[trigger] self.as_groups.transit@.contains(a) <==> self.contains(a)
            && self.node(a).spec_is_transit()
    }

    /// Classifies the nodes into the IXP, stub, multihomed and transit groups.
    fn set_as_groups(&mut self)
        requires
            old(self).wf_index(),
        ensures
            final(self).as_dict == old(self).as_dict,
            final(self).index == old(self).index,
            final(self).grouped(),
    {
        let mut ixps: Vec<u32> = Vec::new();
        let mut stubs: Vec<u32> = Vec::new();
        let mut multihomed: Vec<u32> = Vec::new();
        let mut transit: Vec<u32> = Vec::new();
        let mut i: usize = 0;
        while i < self.as_dict.len()
            invariant
                self.wf_index(),
                i <= self.as_dict@.len(),
                self.as_dict == old(self).as_dict,
                self.index == old(self).index,
                ixps@.no_duplicates(),
                stubs@.no_duplicates(),
                multihomed@.no_duplicates(),
                transit@.no_duplicates(),
                forall|a: u32| #[trigger] ixps@.contains(a) <==> exists|k: int| 0 <= k < i && self.as_dict@[k].asn == a && self.as_dict@[k].ixp,
                forall|a: u32| #[trigger] stubs@.contains(a) <==> exists|k: int| 0 <= k < i && self.as_dict@[k].asn == a && self.as_dict@[k].spec_is_stub(),
                forall|a: u32| #[trigger] multihomed@.contains(a) <==> exists|k: int| 0 <= k < i && self.as_dict@[k].asn == a
                    && self.as_dict@[k].spec_is_multihomed(),
                forall|a: u32| #[trigger] transit@.contains(a) <==> exists|k: int| 0 <= k < i && self.as_dict@[k].asn == a
                    && self.as_dict@[k].spec_is_transit(),
            decreases self.as_dict.len() - i,
        {
            let node = &self.as_dict[i];
            let asn = node.asn;
            proof {
                assert forall|k: int| 0 <= k < i implies self.as_dict@[k].asn != asn by {
                    assert(self.index@.contains_key(self.as_dict@[k].asn));
                    assert(self.index@.contains_key(self.as_dict@[i as int].asn));
                }
            }
            let ghost (i0, s0, m0, t0) = (ixps@, stubs@, multihomed@, transit@);
            if node.ixp {
                ixps.push(asn);
            }
            if node.is_stub() {
                stubs.push(asn);
            }
            if node.is_multihomed() {
                multihomed.push(asn);
            }
            if node.is_transit() {
                transit.push(asn);
            }
            proof {
                assert forall|a: u32| #[trigger] ixps@.contains(a) <==> exists|k: int| 0 <= k < i + 1 && self.as_dict@[k].asn == a && self.as_dict@[k].ixp by {
                    if node.ixp {
                        lemma_added(i0, asn);
                        if !i0.contains(asn) { assert(added(i0, asn) == ixps@); }
                    }
                    if a == asn && node.ixp { assert(self.as_dict@[i as int].asn == a); }
                }
                assert forall|a: u32| #[trigger] stubs@.contains(a) <==> exists|k: int| 0 <= k < i + 1 && self.as_dict@[k].asn == a && self.as_dict@[k].spec_is_stub() by {
                    if node.spec_is_stub() {
                        lemma_added(s0, asn);
                        if !s0.contains(asn) { assert(added(s0, asn) == stubs@); }
                    }
                    if a == asn && node.spec_is_stub() { assert(self.as_dict@[i as int].asn == a); }
                }
                assert forall|a: u32| #[trigger] multihomed@.contains(a) <==> exists|k: int| 0 <= k < i + 1 && self.as_dict@[k].asn == a
                    && self.as_dict@[k].spec_is_multihomed() by {
                    if node.spec_is_multihomed() {
                        lemma_added(m0, asn);
                        if !m0.contains(asn) { assert(added(m0, asn) == multihomed@); }
                    }
                    if a == asn && node.spec_is_multihomed() { assert(self.as_dict@[i as int].asn == a); }
                }
                assert forall|a: u32| #[trigger] transit@.contains(a) <==> exists|k: int| 0 <= k < i + 1 && self.as_dict@[k].asn == a
                    && self.as_dict@[k].spec_is_transit() by {
                    if node.spec_is_transit() {
                        lemma_added(t0, asn);
                        if !t0.contains(asn) { assert(added(t0, asn) == transit@); }
                    }
                    if a == asn && node.spec_is_transit() { assert(self.as_dict@[i as int].asn == a); }
                }
                if node.ixp { lemma_added(i0, asn); }
                if node.spec_is_stub() { lemma_added(s0, asn); }
                if node.spec_is_multihomed() { lemma_added(m0, asn); }
                if node.spec_is_transit() { lemma_added(t0, asn); }
            }
            i = i + 1;
        }
        self.as_groups = ASGroups { ixps, stubs, multihomed, transit };
        proof {
            assert forall|a: u32| #[trigger] self.as_groups.ixps@.contains(a) <==> self.contains(a) && self.node(a).ixp by {
                if self.as_groups.ixps@.contains(a) {
                    let k = choose|k: int| 0 <= k < self.as_dict@.len() && self.as_dict@[k].asn == a && self.as_dict@[k].ixp;
                    assert(self.index@.contains_key(self.as_dict@[k].asn));
                }
                if self.contains(a) && self.node(a).ixp {
                    let k = self.index@[a] as int;
                    assert(self.as_dict@[k].asn == a);
                }
            }
            assert forall|a: u32| #[trigger] self.as_groups.stubs@.contains(a) <==> self.contains(a) && self.node(a).spec_is_stub() by {
                if self.as_groups.stubs@.contains(a) {
                    let k = choose|k: int| 0 <= k < self.as_dict@.len() && self.as_dict@[k].asn == a && self.as_dict@[k].spec_is_stub();
                    assert(self.index@.contains_key(self.as_dict@[k].asn));
                }
                if self.contains(a) && self.node(a).spec_is_stub() {
                    let k = self.index@[a] as int;
                    assert(self.as_dict@[k].asn == a);
                }
            }
            assert forall|a: u32| #[trigger] self.as_groups.multihomed@.contains(a) <==> self.contains(a) && self.node(a).spec_is_multihomed() by {
                if self.as_groups.multihomed@.contains(a) {
                    let k = choose|k: int| 0 <= k < self.as_dict@.len() && self.as_dict@[k].asn == a && self.as_dict@[k].spec_is_multihomed();
                    assert(self.index@.contains_key(self.as_dict@[k].asn));
                }
                if self.contains(a) && self.node(a).spec_is_multihomed() {
                    let k = self.index@[a] as int;
                    assert(self.as_dict@[k].asn == a);
                }
            }
            assert forall|a: u32| #[trigger] self.as_groups.transit@.contains(a) <==> self.contains(a) && self.node(a).spec_is_transit() by {
                if self.as_groups.transit@.contains(a) {
                    let k = choose|k: int| 0 <= k < self.as_dict@.len() && self.as_dict@[k].asn == a && self.as_dict@[k].spec_is_transit();
                    assert(self.index@.contains_key(self.as_dict@[k].asn));
                }
                if self.contains(a) && self.node(a).spec_is_transit() {
                    let k = self.index@[a] as int;
                    assert(self.as_dict@[k].asn == a);
                }
            }
        }
    }

    /// The graph is the one that `info` describes: one node per mentioned
    /// ASN with its flags, relations and rank, and the groups of its nodes.
    pub open spec fn built_from(&self, info: &ASGraphInfo) -> bool {
        &&& self.wf_index()
        &&& forall|a: u32| #[trigger] self.contains(a) <==> info.mentions(a)
        &&& forall|a: u32| #[trigger] self.contains(a) ==> self.node(a).asn == a
            && self.node(a).ixp == info.ixp_asns@.contains(a)
            && self.node(a).input_clique == info.input_clique_asns@.contains(a)
        &&& self.wired(info.customer_provider_links@, info.peer_links@)
        &&& self.ranked()
        &&& self.grouped()
    }

    /// Builds the topology that `as_graph_info` describes; fails exactly when
    /// its provider relation has a cycle.
    pub fn new(as_graph_info: ASGraphInfo) -> (r: Result<ASGraph, GraphError>)
        ensures
            r is Ok <==> as_graph_info.provider_acyclic(),
            r matches Ok(g) ==> g.built_from(&as_graph_info),
    {
        broadcast use vstd::std_specs::hash::group_hash_axioms;

        let mut graph = ASGraph {
            as_dict: Vec::new(),
            index: HashMapWithView::new(),
            as_groups: ASGroups {
                ixps: Vec::new(),
                stubs: Vec::new(),
                multihomed: Vec::new(),
                transit: Vec::new(),
            },
        };
        graph.generate_graph(&as_graph_info);
        let ghost g1 = graph;
        graph.add_relationships(&as_graph_info);
        let ghost g2 = graph;
        assert forall|a: u32| #[trigger] graph.contains(a) <==> as_graph_info.mentions(a) by {
            assert(graph.contains(a) == g1.contains(a));
        }
        let ranks = match graph.compute_ranks(Ghost(&as_graph_info)) {
            Some(r) => r,
            None => {
                return Err(GraphError::RankCycle);
            },
        };
        proof {
            assert forall|i: int, c: u32| 0 <= i < ranks@.len() && #[trigger] graph.as_dict@[i].customers@.contains(c)
                implies graph.contains(c) by {
                let a = graph.as_dict@[i].asn;
                assert(graph.contains(a));
                assert(graph.node(a).customers@.contains(c));
                let cps = as_graph_info.customer_provider_links@;
                let k = choose|k: int| 0 <= k < cps.len() && cps[k].customer_asn == c && cps[k].provider_asn == a;
                assert(in_cp_links(cps, c));
                assert(as_graph_info.mentions(c));
            }
        }
        graph.store_ranks(&ranks);
        let ghost g3 = graph;
        graph.set_as_groups();
        proof {
            assert forall|a: u32| #[trigger] graph.contains(a) implies graph.node(a).asn == a
                && graph.node(a).ixp == as_graph_info.ixp_asns@.contains(a)
                && graph.node(a).input_clique == as_graph_info.input_clique_asns@.contains(a) by {
                assert(graph.node(a) == g3.node(a));
                assert(g3.contains(a));
                assert(g2.contains(a));
                assert(g1.contains(a));
                assert(g2.node(a).ixp == g1.node(a).ixp);
            }
            assert forall|a: u32| #[trigger] graph.contains(a) <==> as_graph_info.mentions(a) by {
                assert(graph.contains(a) == g1.contains(a));
            }
            assert forall|a: u32| #[trigger] graph.contains(a) implies {
                &&& graph.node(a).providers@ == g2.node(a).providers@
                &&& graph.node(a).customers@ == g2.node(a).customers@
                &&& graph.node(a).peers@ == g2.node(a).peers@
            } by {
                assert(g3.contains(a));
            }
            let cps = as_graph_info.customer_provider_links@;
            let pls = as_graph_info.peer_links@;
            assert forall|a: u32| #[trigger] graph.contains(a) implies {
                &&& graph.node(a).providers@.no_duplicates()
                &&& graph.node(a).customers@.no_duplicates()
                &&& graph.node(a).peers@.no_duplicates()
                &&& forall|x: u32| #[trigger] graph.node(a).providers@.contains(x) <==> (a != x && has_cp_link(cps, a, x))
                &&& forall|x: u32| #[trigger] graph.node(a).customers@.contains(x) <==> (a != x && has_cp_link(cps, x, a))
                &&& forall|x: u32| #[trigger] graph.node(a).peers@.contains(x) <==> (a != x && has_peer_link(pls, a, x))
            } by {
                assert(g2.contains(a));
            }
            assert(graph.wired(cps, pls));
            assert(graph.as_dict@ == g3.as_dict@);
            assert(graph.index@ == g3.index@);
            assert forall|a: u32| #[trigger] graph.contains(a) implies {
                &&& graph.node(a).propagation_rank is Some
                &&& forall|c: u32| #[trigger] graph.node(a).customers@.contains(c) ==> graph.rank_of(a) >= graph.rank_of(c) + 1
                &&& graph.node(a).customers@.len() == 0 ==> graph.rank_of(a) == 0
                &&& graph.node(a).customers@.len() > 0 ==> exists|c: u32|
                    #[trigger] graph.node(a).customers@.contains(c) && graph.rank_of(a) == graph.rank_of(c) + 1
            } by {
                assert(g3.contains(a));
                assert(graph.node(a) == g3.node(a));
                assert forall|c: u32| #[trigger] graph.node(a).customers@.contains(c) implies graph.rank_of(c) == g3.rank_of(c) by {}
            }
            assert(graph.ranked());
            lemma_ranked_acyclic(&graph, &as_graph_info);
        }
        Ok(graph)
    }

    /// ASNs of the nodes of rank `r`, in arena order.
    fn nodes_of_rank(&self, r: u32) -> (bucket: Vec<u32>)
        requires
            self.wf_index(),
        ensures
            bucket@.no_duplicates(),
            forall|a: u32| #[trigger] bucket@.contains(a) <==> self.contains(a) && self.node(a).propagation_rank == Some(r),
    {
        let mut bucket: Vec<u32> = Vec::new();
        let mut i: usize = 0;
        while i < self.as_dict.len()
            invariant
                self.wf_index(),
                i <= self.as_dict@.len(),
                bucket@.no_duplicates(),
                forall|a: u32| #[trigger] bucket@.contains(a) <==> exists|k: int| 0 <= k < i && self.as_dict@[k].asn == a
                    && self.as_dict@[k].propagation_rank == Some(r),
            decreases self.as_dict.len() - i,
        {
            let node = &self.as_dict[i];
            if node.propagation_rank == Some(r) {
                let asn = node.asn;
                proof {
                    assert forall|k: int| 0 <= k < i implies self.as_dict@[k].asn != asn by {
                        assert(self.index@.contains_key(self.as_dict@[k].asn));
                        assert(self.index@.contains_key(self.as_dict@[i as int].asn));
                    }
                    lemma_added(bucket@, asn);
                }
                let ghost b0 = bucket@;
                bucket.push(asn);
                proof {
                    assert(!b0.contains(asn));
                    assert(added(b0, asn) == bucket@);
                    assert forall|a: u32| #[trigger] bucket@.contains(a) <==> exists|k: int| 0 <= k < i + 1 && self.as_dict@[k].asn == a
                        && self.as_dict@[k].propagation_rank == Some(r) by {
                        if a == asn {
                            assert(self.as_dict@[i as int].asn == a);
                        }
                    }
                }
            }
            i = i + 1;
        }
        proof {
            assert forall|a: u32| #[trigger] bucket@.contains(a) <==> self.contains(a) && self.node(a).propagation_rank == Some(r) by {
                if bucket@.contains(a) {
                    let k = choose|k: int| 0 <= k < self.as_dict@.len() && self.as_dict@[k].asn == a
                        && self.as_dict@[k].propagation_rank == Some(r);
                    assert(self.index@.contains_key(self.as_dict@[k].asn));
                }
                if self.contains(a) && self.node(a).propagation_rank == Some(r) {
                    assert(self.as_dict@[self.index@[a] as int].asn == a);
                }
            }
        }
        bucket
    }

    /// The ranked nodes grouped by rank, lowest rank first: every bucket is
    /// non-empty, holds the ASNs of all nodes of one rank, once each, and
    /// ranks grow from bucket to bucket.
    pub fn get_propagation_ranks(&self) -> (r: Vec<Vec<u32>>)
        requires
            self.wf_index(),
        ensures
            forall|b: int| 0 <= b < r@.len() ==> (#[trigger] r@[b])@.len() > 0 && r@[b]@.no_duplicates(),
            forall|b: int, m: int| 0 <= b < r@.len() && 0 <= m < r@[b]@.len() ==> self.contains(#[trigger] r@[b]@[m])
                && self.node(r@[b]@[m]).propagation_rank is Some
                && self.node(r@[b]@[m]).propagation_rank == self.node(r@[b]@[0]).propagation_rank,
            forall|b1: int, b2: int| 0 <= b1 < b2 < r@.len() ==> self.node((#[trigger] r@[b1])@[0]).propagation_rank->0
                < self.node((#[trigger] r@[b2])@[0]).propagation_rank->0,
            forall|a: u32| #[trigger] self.contains(a) && self.node(a).propagation_rank is Some ==> exists|b: int, m: int|
                0 <= b < r@.len() && 0 <= m < r@[b]@.len() && r@[b]@[m] == a,
    {
        let mut out: Vec<Vec<u32>> = Vec::new();
        let mut max: u32 = 0;
        let mut any = false;
        let mut i: usize = 0;
        while i < self.as_dict.len()
            invariant
                i <= self.as_dict@.len(),
                forall|k: int| 0 <= k < i && (#[trigger] self.as_dict@[k]).propagation_rank is Some
                    ==> any && self.as_dict@[k].propagation_rank->0 <= max,
            decreases self.as_dict.len() - i,
        {
            match self.as_dict[i].propagation_rank {
                Some(x) => {
                    if !any || x > max {
                        max = x;
                    }
                    any = true;
                },
                None => {},
            }
            i = i + 1;
        }
        proof {
            assert forall|a: u32| #[trigger] self.contains(a) && self.node(a).propagation_rank is Some implies any
                && self.node(a).propagation_rank->0 <= max by {
                assert(self.as_dict@[self.index@[a] as int] == self.node(a));
            }
        }
        if !any {
            return out;
        }
        let ghost mut keys: Seq<u32> = Seq::empty();
        let mut r: u32 = 0;
        loop
            invariant_except_break
                forall|b: int| 0 <= b < keys.len() ==> keys[b] < r,
                forall|a: u32| #[trigger] self.contains(a) && self.node(a).propagation_rank is Some
                    && self.node(a).propagation_rank->0 < r ==> exists|b: int, m: int|
                    0 <= b < out@.len() && 0 <= m < out@[b]@.len() && out@[b]@[m] == a,
            invariant
                self.wf_index(),
                r <= max,
                keys.len() == out@.len(),
                forall|b1: int, b2: int| 0 <= b1 < b2 < keys.len() ==> keys[b1] < keys[b2],
                forall|b: int| 0 <= b < out@.len() ==> (#[trigger] out@[b])@.len() > 0 && out@[b]@.no_duplicates(),
                forall|b: int, m: int| 0 <= b < out@.len() && 0 <= m < out@[b]@.len() ==> self.contains(#[trigger] out@[b]@[m])
                    && self.node(out@[b]@[m]).propagation_rank == Some(keys[b]),
                forall|a: u32| #[trigger] self.contains(a) && self.node(a).propagation_rank is Some
                    ==> self.node(a).propagation_rank->0 <= max,
            ensures
                forall|a: u32| #[trigger] self.contains(a) && self.node(a).propagation_rank is Some ==> exists|b: int, m: int|
                    0 <= b < out@.len() && 0 <= m < out@[b]@.len() && out@[b]@[m] == a,
            decreases max - r,
        {
            let bucket = self.nodes_of_rank(r);
            let ghost out0 = out@;
            let ghost keys0 = keys;
            if bucket.len() > 0 {
                out.push(bucket);
                proof {
                    keys = keys.push(r);
                    assert forall|a: u32| #[trigger] self.contains(a) && self.node(a).propagation_rank is Some
                        && self.node(a).propagation_rank->0 < r + 1 implies exists|b: int, m: int|
                        0 <= b < out@.len() && 0 <= m < out@[b]@.len() && out@[b]@[m] == a by {
                        if self.node(a).propagation_rank->0 == r {
                            let b = out0.len() as int;
                            assert(out@[b]@.contains(a));
                            let m = choose|m: int| 0 <= m < out@[b]@.len() && out@[b]@[m] == a;
                        } else {
                            let (b, m) = choose|b: int, m: int| 0 <= b < out0.len() && 0 <= m < out0[b]@.len() && out0[b]@[m] == a;
                            assert(out@[b] == out0[b]);
                        }
                    }
                    assert forall|b: int, m: int| 0 <= b < out@.len() && 0 <= m < out@[b]@.len() implies self.contains(#[trigger] out@[b]@[m])
                        && self.node(out@[b]@[m]).propagation_rank == Some(keys[b]) by {
                        if b < out0.len() {
                            assert(out@[b] == out0[b]);
                        } else {
                            assert(out@[b]@.contains(out@[b]@[m]));
                        }
                    }
                }
            } else {
                proof {
                    assert forall|a: u32| #[trigger] self.contains(a) && self.node(a).propagation_rank is Some
                        && self.node(a).propagation_rank->0 < r + 1 implies exists|b: int, m: int|
                        0 <= b < out@.len() && 0 <= m < out@[b]@.len() && out@[b]@[m] == a by {
                        if self.node(a).propagation_rank->0 == r {
                            assert(bucket@.contains(a));
                        }
                    }
                }
            }
            if r == max {
                break;
            }
            r = r + 1;
        }
        proof {
            assert forall|b: int, m: int| 0 <= b < out@.len() && 0 <= m < out@[b]@.len() implies self.contains(#[trigger] out@[b]@[m])
                && self.node(out@[b]@[m]).propagation_rank is Some
                && self.node(out@[b]@[m]).propagation_rank == self.node(out@[b]@[0]).propagation_rank by {
                assert(self.contains(out@[b]@[0]));
            }
            assert forall|b1: int, b2: int| 0 <= b1 < b2 < out@.len() implies self.node((#[trigger] out@[b1])@[0]).propagation_rank->0
                < self.node((#[trigger] out@[b2])@[0]).propagation_rank->0 by {
                assert(self.contains(out@[b1]@[0]));
                assert(self.contains(out@[b2]@[0]));
            }
        }
        out
    }

    /// Creates one bare node for every ASN that `info` mentions, then marks
    /// the IXP and input-clique nodes.
    fn generate_graph(&mut self, info: &ASGraphInfo)
        requires
            old(self).wf_index(),
            old(self).index@ == Map::<u32, usize>::empty(),
        ensures
            final(self).wf_index(),
            forall|a: u32| #[trigger] final(self).contains(a) <==> info.mentions(a),
            forall|a: u32| #[trigger] final(self).contains(a) ==> bare(final(self).node(a))
                && final(self).node(a).ixp == info.ixp_asns@.contains(a)
                && final(self).node(a).input_clique == info.input_clique_asns@.contains(a),
            final(self).as_groups == old(self).as_groups,
    {
        let cps = &info.customer_provider_links;
        let mut i: usize = 0;
        while i < cps.len()
            invariant
                self.wf_index(),
                i <= cps@.len(),
                forall|a: u32| #[trigger] self.contains(a) <==> in_cp_links(cps@.take(i as int), a),
                forall|a: u32| #[trigger] self.contains(a) ==> bare(self.node(a)) && !self.node(a).ixp
                    && !self.node(a).input_clique,
                self.as_groups == old(self).as_groups,
            decreases cps.len() - i,
        {
            let link = cps[i];
            let ghost s0 = *self;
            self.ensure_node(link.customer_asn);
            let ghost s1 = *self;
            self.ensure_node(link.provider_asn);
            proof {
                assert forall|a: u32| #[trigger] self.contains(a) implies bare(self.node(a)) && !self.node(a).ixp
                    && !self.node(a).input_clique by {
                    if s1.contains(a) {
                        assert(self.node(a) == s1.node(a));
                        if s0.contains(a) {
                            assert(s1.node(a) == s0.node(a));
                        }
                    }
                }
                assert forall|a: u32| #[trigger] self.contains(a) == (s0.contains(a) || a == link.customer_asn || a == link.provider_asn) by {
                    assert(self.index@.dom().contains(a) == self.contains(a));
                    assert(s1.index@.dom().contains(a) == s1.contains(a));
                    assert(s0.index@.dom().contains(a) == s0.contains(a));
                }
                let t = cps@.take(i + 1);
                assert forall|a: u32| #[trigger] self.contains(a) <==> in_cp_links(t, a) by {
                    if in_cp_links(t, a) {
                        let k = choose|k: int| 0 <= k < t.len() && (t[k].customer_asn == a || t[k].provider_asn == a);
                        if k < i {
                            assert(cps@.take(i as int)[k] == t[k]);
                        }
                    }
                    if in_cp_links(cps@.take(i as int), a) {
                        let k = choose|k: int| 0 <= k < i && (cps@.take(i as int)[k].customer_asn == a || cps@.take(i as int)[k].provider_asn == a);
                        assert(t[k] == cps@.take(i as int)[k]);
                    }
                    if a == link.customer_asn || a == link.provider_asn {
                        assert(t[i as int] == link);
                    }
                }
            }
            i = i + 1;
        }
        assert(cps@.take(cps@.len() as int) =~= cps@);
        let pls = &info.peer_links;
        let mut i: usize = 0;
        while i < pls.len()
            invariant
                self.wf_index(),
                i <= pls@.len(),
                cps == &info.customer_provider_links,
                forall|a: u32| #[trigger] self.contains(a) <==> in_cp_links(cps@, a) || in_peer_links(pls@.take(i as int), a),
                forall|a: u32| #[trigger] self.contains(a) ==> bare(self.node(a)) && !self.node(a).ixp
                    && !self.node(a).input_clique,
                self.as_groups == old(self).as_groups,
            decreases pls.len() - i,
        {
            let link = pls[i];
            let ghost s0 = *self;
            self.ensure_node(link.peer1_asn);
            let ghost s1 = *self;
            self.ensure_node(link.peer2_asn);
            proof {
                assert forall|a: u32| #[trigger] self.contains(a) implies bare(self.node(a)) && !self.node(a).ixp
                    && !self.node(a).input_clique by {
                    if s1.contains(a) {
                        assert(self.node(a) == s1.node(a));
                        if s0.contains(a) {
                            assert(s1.node(a) == s0.node(a));
                        }
                    }
                }
                assert forall|a: u32| #[trigger] self.contains(a) == (s0.contains(a) || a == link.peer1_asn || a == link.peer2_asn) by {
                    assert(self.index@.dom().contains(a) == self.contains(a));
                    assert(s1.index@.dom().contains(a) == s1.contains(a));
                    assert(s0.index@.dom().contains(a) == s0.contains(a));
                }
                let t = pls@.take(i + 1);
                let u = pls@.take(i as int);
                assert forall|a: u32| #[trigger] self.contains(a) <==> in_cp_links(cps@, a) || in_peer_links(t, a) by {
                    if in_peer_links(t, a) {
                        let k = choose|k: int| 0 <= k < t.len() && (t[k].peer1_asn == a || t[k].peer2_asn == a);
                        if k < i {
                            assert(u[k] == t[k]);
                        }
                    }
                    if in_peer_links(u, a) {
                        let k = choose|k: int| 0 <= k < i && (u[k].peer1_asn == a || u[k].peer2_asn == a);
                        assert(t[k] == u[k]);
                    }
                    if a == link.peer1_asn || a == link.peer2_asn {
                        assert(t[i as int] == link);
                    }
                }
            }
            i = i + 1;
        }
        assert(pls@.take(pls@.len() as int) =~= pls@);
        let ixps = &info.ixp_asns;
        let mut i: usize = 0;
        while i < ixps.len()
            invariant
                self.wf_index(),
                i <= ixps@.len(),
                cps == &info.customer_provider_links,
                pls == &info.peer_links,
                forall|a: u32| #[trigger] self.contains(a) <==> in_cp_links(cps@, a) || in_peer_links(pls@, a)
                    || ixps@.take(i as int).contains(a),
                forall|a: u32| #[trigger] self.contains(a) ==> bare(self.node(a))
                    && self.node(a).ixp == ixps@.take(i as int).contains(a) && !self.node(a).input_clique,
                self.as_groups == old(self).as_groups,
            decreases ixps.len() - i,
        {
            let asn = ixps[i];
            let ghost pre = *self;
            self.mark(asn, true);
            proof {
                let t = ixps@.take(i + 1);
                lemma_take_contains(ixps@, i as int);
                assert forall|a: u32| #[trigger] self.contains(a) == (pre.contains(a) || a == asn) by {
                    assert(self.index@.dom().contains(a) == self.contains(a));
                    assert(pre.index@.dom().contains(a) == pre.contains(a));
                }
                assert forall|a: u32| #[trigger] self.contains(a) implies bare(self.node(a))
                    && self.node(a).ixp == t.contains(a) && !self.node(a).input_clique by {
                    if a != asn {
                        assert(pre.contains(a));
                        assert(self.node(a) == pre.node(a));
                    }
                }
            }
            i = i + 1;
        }
        assert(ixps@.take(ixps@.len() as int) =~= ixps@);
        let cliques = &info.input_clique_asns;
        let mut i: usize = 0;
        while i < cliques.len()
            invariant
                self.wf_index(),
                i <= cliques@.len(),
                cps == &info.customer_provider_links,
                pls == &info.peer_links,
                ixps == &info.ixp_asns,
                forall|a: u32| #[trigger] self.contains(a) <==> in_cp_links(cps@, a) || in_peer_links(pls@, a)
                    || ixps@.contains(a) || cliques@.take(i as int).contains(a),
                forall|a: u32| #[trigger] self.contains(a) ==> bare(self.node(a))
                    && self.node(a).ixp == ixps@.contains(a)
                    && self.node(a).input_clique == cliques@.take(i as int).contains(a),
                self.as_groups == old(self).as_groups,
            decreases cliques.len() - i,
        {
            let asn = cliques[i];
            let ghost pre = *self;
            self.mark(asn, false);
            proof {
                let t = cliques@.take(i + 1);
                lemma_take_contains(cliques@, i as int);
                assert forall|a: u32| #[trigger] self.contains(a) == (pre.contains(a) || a == asn) by {
                    assert(self.index@.dom().contains(a) == self.contains(a));
                    assert(pre.index@.dom().contains(a) == pre.contains(a));
                }
                assert forall|a: u32| #[trigger] self.contains(a) implies bare(self.node(a))
                    && self.node(a).ixp == ixps@.contains(a) && self.node(a).input_clique == t.contains(a) by {
                    if a != asn {
                        assert(pre.contains(a));
                        assert(self.node(a) == pre.node(a));
                    }
                }
            }
            i = i + 1;
        }
        assert(cliques@.take(cliques@.len() as int) =~= cliques@);
    }
}


/// Both ends of every link hold each other: for each customer-provider link
/// between two distinct ASes the customer is among the provider's customers
/// and the provider among the customer's providers; for each peer link
/// between two distinct ASes each end is among the other's peers.
pub proof fn lemma_relations_symmetric(g: &ASGraph, info: &ASGraphInfo)
    requires
        g.built_from(info),
    ensures
        forall|k: int|
            0 <= k < info.customer_provider_links@.len() && #[trigger] info.customer_provider_links@[k].customer_asn
                != info.customer_provider_links@[k].provider_asn ==> {
                let l = info.customer_provider_links@[k];
                &&& g.contains(l.customer_asn) && g.contains(l.provider_asn)
                &&& g.node(l.provider_asn).customers@.contains(l.customer_asn)
                &&& g.node(l.customer_asn).providers@.contains(l.provider_asn)
            },
        forall|k: int|
            0 <= k < info.peer_links@.len() && #[trigger] info.peer_links@[k].peer1_asn != info.peer_links@[k].peer2_asn ==> {
                let l = info.peer_links@[k];
                &&& g.contains(l.peer1_asn) && g.contains(l.peer2_asn)
                &&& g.node(l.peer1_asn).peers@.contains(l.peer2_asn)
                &&& g.node(l.peer2_asn).peers@.contains(l.peer1_asn)
            },
{
    let cps = info.customer_provider_links@;
    let pls = info.peer_links@;
    assert forall|k: int| 0 <= k < cps.len() && #[trigger] cps[k].customer_asn != cps[k].provider_asn implies {
        let l = cps[k];
        &&& g.contains(l.customer_asn) && g.contains(l.provider_asn)
        &&& g.node(l.provider_asn).customers@.contains(l.customer_asn)
        &&& g.node(l.customer_asn).providers@.contains(l.provider_asn)
    } by {
        let l = cps[k];
        assert(in_cp_links(cps, l.customer_asn));
        assert(in_cp_links(cps, l.provider_asn));
        assert(has_cp_link(cps, l.customer_asn, l.provider_asn));
        assert(g.contains(l.customer_asn) && g.contains(l.provider_asn));
    }
    assert forall|k: int| 0 <= k < pls.len() && #[trigger] pls[k].peer1_asn != pls[k].peer2_asn implies {
        let l = pls[k];
        &&& g.contains(l.peer1_asn) && g.contains(l.peer2_asn)
        &&& g.node(l.peer1_asn).peers@.contains(l.peer2_asn)
        &&& g.node(l.peer2_asn).peers@.contains(l.peer1_asn)
    } by {
        let l = pls[k];
        assert(in_peer_links(pls, l.peer1_asn));
        assert(in_peer_links(pls, l.peer2_asn));
        assert(has_peer_link(pls, l.peer1_asn, l.peer2_asn));
        assert(has_peer_link(pls, l.peer2_asn, l.peer1_asn));
        assert(g.contains(l.peer1_asn) && g.contains(l.peer2_asn));
    }
}

/// Every provider ranks at least one above each of its customers.
pub proof fn lemma_rank_monotone(g: &ASGraph, info: &ASGraphInfo)
    requires
        g.built_from(info),
    ensures
        forall|c: u32, p: u32| g.contains(c) && #[trigger] g.node(c).providers@.contains(p) ==> g.contains(p)
            && g.rank_of(p) >= g.rank_of(c) + 1,
{
    assert forall|c: u32, p: u32| g.contains(c) && #[trigger] g.node(c).providers@.contains(p) implies g.contains(p)
        && g.rank_of(p) >= g.rank_of(c) + 1 by {
        let cps = info.customer_provider_links@;
        assert(has_cp_link(cps, c, p));
        let k = choose|k: int| 0 <= k < cps.len() && cps[k].customer_asn == c && cps[k].provider_asn == p;
        assert(in_cp_links(cps, p));
        assert(g.contains(p));
        assert(g.node(p).customers@.contains(c));
    }
}

proof fn lemma_rank_unique_below(g1: &ASGraph, g2: &ASGraph, info: &ASGraphInfo, k: nat)
    requires
        g1.built_from(info),
        g2.built_from(info),
    ensures
        forall|a: u32| #[trigger] g1.contains(a) && g1.rank_of(a) < k ==> g2.rank_of(a) == g1.rank_of(a),
    decreases k,
{
    if k > 0 {
        lemma_rank_unique_below(g1, g2, info, (k - 1) as nat);
        assert forall|a: u32| #[trigger] g1.contains(a) && g1.rank_of(a) < k implies g2.rank_of(a) == g1.rank_of(a) by {
            assert(g2.contains(a));
            let s1 = g1.node(a).customers@;
            let s2 = g2.node(a).customers@;
            assert forall|c: u32| #[trigger] s1.contains(c) implies s2.contains(c) && g1.contains(c) by {
                let cps = info.customer_provider_links@;
                let j = choose|j: int| 0 <= j < cps.len() && cps[j].customer_asn == c && cps[j].provider_asn == a;
                assert(in_cp_links(cps, c));
            }
            assert forall|c: u32| #[trigger] s2.contains(c) implies s1.contains(c) by {}
            if s1.len() == 0 {
                if s2.len() > 0 {
                    assert(s2.contains(s2[0]));
                }
            } else {
                assert(s1.contains(s1[0]));
                let c1 = choose|c: u32| #[trigger] s1.contains(c) && g1.rank_of(a) == g1.rank_of(c) + 1;
                let c2 = choose|c: u32| #[trigger] s2.contains(c) && g2.rank_of(a) == g2.rank_of(c) + 1;
                assert(g1.contains(c1) && g1.contains(c2));
                assert(g1.rank_of(c2) + 1 <= g1.rank_of(a));
            }
        }
    }
}

/// Building twice from one description gives the same nodes, with the same
/// flags, relations and ranks.
pub proof fn lemma_build_deterministic(info: &ASGraphInfo, g1: &ASGraph, g2: &ASGraph)
    requires
        g1.built_from(info),
        g2.built_from(info),
    ensures
        forall|a: u32| #[trigger] g1.contains(a) <==> g2.contains(a),
        forall|a: u32| #[trigger] g1.contains(a) ==> {
            &&& g1.node(a).ixp == g2.node(a).ixp
            &&& g1.node(a).input_clique == g2.node(a).input_clique
            &&& g1.node(a).providers@.to_set() == g2.node(a).providers@.to_set()
            &&& g1.node(a).customers@.to_set() == g2.node(a).customers@.to_set()
            &&& g1.node(a).peers@.to_set() == g2.node(a).peers@.to_set()
            &&& g1.node(a).propagation_rank == g2.node(a).propagation_rank
        },
{
    assert forall|a: u32| #[trigger] g1.contains(a) <==> g2.contains(a) by {
        assert(g1.contains(a) == info.mentions(a));
    }
    assert forall|a: u32| #[trigger] g1.contains(a) implies {
        &&& g1.node(a).ixp == g2.node(a).ixp
        &&& g1.node(a).input_clique == g2.node(a).input_clique
        &&& g1.node(a).providers@.to_set() == g2.node(a).providers@.to_set()
        &&& g1.node(a).customers@.to_set() == g2.node(a).customers@.to_set()
        &&& g1.node(a).peers@.to_set() == g2.node(a).peers@.to_set()
        &&& g1.node(a).propagation_rank == g2.node(a).propagation_rank
    } by {
        assert(g2.contains(a));
        assert(g1.node(a).providers@.to_set() =~= g2.node(a).providers@.to_set());
        assert(g1.node(a).customers@.to_set() =~= g2.node(a).customers@.to_set());
        assert(g1.node(a).peers@.to_set() =~= g2.node(a).peers@.to_set());
        lemma_rank_unique_below(g1, g2, info, (g1.rank_of(a) + 1) as nat);
    }
}

} // verus!
