use bgpr::as_graph::{ASGraph, AutonomousSystem, GraphError};
use bgpr::constructor::{ASGraphInfo, CustomerProviderLink, PeerLink};

fn cp(customer_asn: u32, provider_asn: u32) -> CustomerProviderLink {
    CustomerProviderLink { customer_asn, provider_asn }
}

fn peer(peer1_asn: u32, peer2_asn: u32) -> PeerLink {
    PeerLink { peer1_asn, peer2_asn }
}

fn sample_info() -> ASGraphInfo {
    ASGraphInfo {
        customer_provider_links: vec![cp(1, 2), cp(2, 3), cp(4, 3), cp(1, 2)],
        peer_links: vec![peer(2, 4)],
        ixp_asns: vec![5],
        input_clique_asns: vec![3],
    }
}

fn node(g: &ASGraph, asn: u32) -> &AutonomousSystem {
    g.get_node(asn).expect("node exists")
}

fn sorted(mut v: Vec<u32>) -> Vec<u32> {
    v.sort();
    v
}

#[test]
fn builds_every_mentioned_node_once() {
    let g = ASGraph::new(sample_info()).unwrap();
    assert_eq!(g.as_dict.len(), 5);
    for asn in 1..=5 {
        assert_eq!(node(&g, asn).asn, asn);
    }
    assert!(g.get_node(6).is_none());
    assert!(node(&g, 5).ixp);
    assert!(!node(&g, 4).ixp);
    assert!(node(&g, 3).input_clique);
    assert!(!node(&g, 1).input_clique);
}

#[test]
fn relations_are_symmetric() {
    let info = sample_info();
    let g = ASGraph::new(info.clone()).unwrap();
    for l in &info.customer_provider_links {
        assert!(node(&g, l.provider_asn).customers.contains(&l.customer_asn));
        assert!(node(&g, l.customer_asn).providers.contains(&l.provider_asn));
    }
    for l in &info.peer_links {
        assert!(node(&g, l.peer1_asn).peers.contains(&l.peer2_asn));
        assert!(node(&g, l.peer2_asn).peers.contains(&l.peer1_asn));
    }
}

#[test]
fn duplicate_links_count_once() {
    let g = ASGraph::new(sample_info()).unwrap();
    assert_eq!(node(&g, 1).providers, vec![2]);
    assert_eq!(node(&g, 2).customers, vec![1]);
    assert_eq!(sorted(node(&g, 3).customers.clone()), vec![2, 4]);
}

#[test]
fn self_links_are_ignored() {
    let info = ASGraphInfo {
        customer_provider_links: vec![cp(7, 7)],
        peer_links: vec![peer(8, 8)],
        ixp_asns: vec![],
        input_clique_asns: vec![],
    };
    let g = ASGraph::new(info).unwrap();
    assert_eq!(g.as_dict.len(), 2);
    assert!(node(&g, 7).providers.is_empty());
    assert!(node(&g, 7).customers.is_empty());
    assert!(node(&g, 8).peers.is_empty());
    assert_eq!(node(&g, 7).propagation_rank, Some(0));
}

#[test]
fn ranks_follow_longest_customer_chain() {
    let g = ASGraph::new(sample_info()).unwrap();
    assert_eq!(node(&g, 1).propagation_rank, Some(0));
    assert_eq!(node(&g, 2).propagation_rank, Some(1));
    assert_eq!(node(&g, 3).propagation_rank, Some(2));
    assert_eq!(node(&g, 4).propagation_rank, Some(0));
    assert_eq!(node(&g, 5).propagation_rank, Some(0));
}

#[test]
fn provider_ranks_above_customer() {
    let g = ASGraph::new(sample_info()).unwrap();
    for n in &g.as_dict {
        for p in &n.providers {
            assert!(node(&g, *p).propagation_rank.unwrap() >= n.propagation_rank.unwrap() + 1);
        }
    }
}

#[test]
fn building_twice_gives_the_same_topology() {
    let g1 = ASGraph::new(sample_info()).unwrap();
    let g2 = ASGraph::new(sample_info()).unwrap();
    assert_eq!(g1.as_dict.len(), g2.as_dict.len());
    for n in &g1.as_dict {
        let m = node(&g2, n.asn);
        assert_eq!(n.ixp, m.ixp);
        assert_eq!(n.input_clique, m.input_clique);
        assert_eq!(sorted(n.providers.clone()), sorted(m.providers.clone()));
        assert_eq!(sorted(n.customers.clone()), sorted(m.customers.clone()));
        assert_eq!(sorted(n.peers.clone()), sorted(m.peers.clone()));
        assert_eq!(n.propagation_rank, m.propagation_rank);
    }
}

#[test]
fn provider_cycle_is_rejected() {
    let info = ASGraphInfo {
        customer_provider_links: vec![cp(1, 2), cp(2, 3), cp(3, 1), cp(4, 1)],
        peer_links: vec![],
        ixp_asns: vec![],
        input_clique_asns: vec![],
    };
    assert_eq!(ASGraph::new(info).err(), Some(GraphError::RankCycle));
}

#[test]
fn empty_input_gives_empty_graph() {
    let info = ASGraphInfo {
        customer_provider_links: vec![],
        peer_links: vec![],
        ixp_asns: vec![],
        input_clique_asns: vec![],
    };
    let g = ASGraph::new(info).unwrap();
    assert!(g.as_dict.is_empty());
    assert!(g.get_propagation_ranks().is_empty());
    assert!(g.as_groups.stubs.is_empty());
}

#[test]
fn flag_only_nodes_are_created() {
    let info = ASGraphInfo {
        customer_provider_links: vec![],
        peer_links: vec![],
        ixp_asns: vec![9, 9],
        input_clique_asns: vec![9, 10],
    };
    let g = ASGraph::new(info).unwrap();
    assert_eq!(g.as_dict.len(), 2);
    assert!(node(&g, 9).ixp && node(&g, 9).input_clique);
    assert!(!node(&g, 10).ixp && node(&g, 10).input_clique);
}

#[test]
fn propagation_ranks_bucket_by_rank() {
    let g = ASGraph::new(sample_info()).unwrap();
    let buckets = g.get_propagation_ranks();
    assert_eq!(buckets.len(), 3);
    assert_eq!(sorted(buckets[0].clone()), vec![1, 4, 5]);
    assert_eq!(buckets[1], vec![2]);
    assert_eq!(buckets[2], vec![3]);
}

#[test]
fn groups_classify_nodes() {
    let g = ASGraph::new(sample_info()).unwrap();
    assert_eq!(sorted(g.as_groups.ixps.clone()), vec![5]);
    // 1: one provider; 4: a provider and a peer; 3: two customers; 2: customer, provider, peer
    assert_eq!(sorted(g.as_groups.stubs.clone()), vec![1]);
    assert_eq!(sorted(g.as_groups.multihomed.clone()), vec![4]);
    assert_eq!(sorted(g.as_groups.transit.clone()), vec![2, 3]);
}

#[test]
fn node_predicates() {
    let mut n = AutonomousSystem::new(1, false, true);
    assert_eq!(n.asn, 1);
    assert!(n.ixp && !n.input_clique);
    assert!(n.propagation_rank.is_none());
    assert!(!n.is_stub() && !n.is_multihomed() && !n.is_transit());
    n.providers.push(2);
    assert!(n.is_stub() && !n.is_multihomed() && !n.is_transit());
    n.peers.push(3);
    assert!(!n.is_stub() && n.is_multihomed() && !n.is_transit());
    n.customers.push(4);
    assert!(!n.is_stub() && !n.is_multihomed() && n.is_transit());
    assert_eq!(n.neighbors(), vec![4, 3, 2]);
    assert_eq!(n.neighbor_asns(), vec![4, 3, 2]);
}
