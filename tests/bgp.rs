use bgpr::as_graph::{ASGraph, AutonomousSystem};
use bgpr::bgp::{Announcement, BgpError, LocalRIB, RecvQueue, Relationships, BGP};
use bgpr::constructor::{ASGraphInfo, CustomerProviderLink, PeerLink};

const PREFIX: &str = "1.2.3.0/24";

fn prefix() -> String {
    PREFIX.to_string()
}

fn speaker(asn: u32) -> BGP {
    BGP::new(&AutonomousSystem::new(asn, false, false))
}

fn learned(path: Vec<u32>, rel: Relationships, next_hop: u32) -> Announcement {
    let mut a = Announcement::new(prefix(), path, rel);
    a.next_hop_asn = Some(next_hop);
    a.seed_asn = None;
    a
}

fn deliver(out: Vec<(u32, Announcement)>, to: &mut BGP) {
    for (asn, ann) in out {
        assert_eq!(asn, to.asn);
        to.receive_ann(ann);
    }
}

fn selected(b: &BGP) -> Announcement {
    b.local_rib.get_ann(&prefix()).expect("route selected").clone()
}

#[test]
fn three_node_chain_propagates_upwards() {
    let info = ASGraphInfo {
        customer_provider_links: vec![
            CustomerProviderLink { customer_asn: 1, provider_asn: 2 },
            CustomerProviderLink { customer_asn: 2, provider_asn: 3 },
        ],
        peer_links: Vec::<PeerLink>::new(),
        ixp_asns: vec![],
        input_clique_asns: vec![],
    };
    let g = ASGraph::new(info).unwrap();
    let mut a = BGP::new(g.get_node(1).unwrap());
    let mut b = BGP::new(g.get_node(2).unwrap());
    let mut c = BGP::new(g.get_node(3).unwrap());
    a.seed_ann(Announcement::new(prefix(), vec![1], Relationships::ORIGIN)).unwrap();

    let out = a.propagate_to_providers();
    assert_eq!(out.len(), 1);
    assert_eq!(out[0].1.as_path, vec![1]);
    deliver(out, &mut b);
    b.process_incoming_anns(Relationships::CUSTOMERS, true);
    let rb = selected(&b);
    assert_eq!(rb.as_path, vec![2, 1]);
    assert_eq!(rb.recv_relationship, Relationships::CUSTOMERS);
    assert!(b.recv_q.data.is_empty());

    deliver(b.propagate_to_providers(), &mut c);
    c.process_incoming_anns(Relationships::CUSTOMERS, true);
    let rc = selected(&c);
    assert_eq!(rc.as_path, vec![3, 2, 1]);
    assert_eq!(rc.recv_relationship, Relationships::CUSTOMERS);
    assert_eq!(rc.next_hop_asn, Some(3));
    assert_eq!(rc.seed_asn, None);
}

#[test]
fn relationship_beats_path_length() {
    for peer_first in [true, false] {
        let mut n = speaker(10);
        let from_peer = learned(vec![20, 21, 22], Relationships::PEERS, 20);
        let from_customer = learned(vec![30, 31, 32, 33, 34], Relationships::CUSTOMERS, 30);
        if peer_first {
            n.receive_ann(from_peer);
            n.process_incoming_anns(Relationships::PEERS, true);
            n.receive_ann(from_customer);
            n.process_incoming_anns(Relationships::CUSTOMERS, true);
        } else {
            n.receive_ann(from_customer);
            n.process_incoming_anns(Relationships::CUSTOMERS, true);
            n.receive_ann(from_peer);
            n.process_incoming_anns(Relationships::PEERS, true);
        }
        let r = selected(&n);
        assert_eq!(r.as_path, vec![10, 30, 31, 32, 33, 34]);
        assert_eq!(r.recv_relationship, Relationships::CUSTOMERS);
    }
    let n = speaker(10);
    let peer_route = learned(vec![10, 20, 21], Relationships::PEERS, 10);
    let customer_route = learned(vec![10, 30, 31, 32, 33], Relationships::CUSTOMERS, 10);
    assert!(n.is_better_ann(&peer_route, &customer_route));
    assert!(!n.is_better_ann(&customer_route, &peer_route));
}

#[test]
fn shorter_path_wins_within_a_relationship() {
    let long = learned(vec![40, 41, 42, 43], Relationships::CUSTOMERS, 40);
    let short = learned(vec![50, 51], Relationships::CUSTOMERS, 50);
    for order in [vec![long.clone(), short.clone()], vec![short.clone(), long.clone()]] {
        let mut n = speaker(10);
        for a in order {
            n.receive_ann(a);
        }
        n.process_incoming_anns(Relationships::CUSTOMERS, true);
        assert_eq!(selected(&n).as_path, vec![10, 50, 51]);
    }
    let n = speaker(10);
    assert!(n.is_better_ann(&long, &short));
    assert!(!n.is_better_ann(&short, &long));
}

#[test]
fn smaller_next_hop_breaks_ties() {
    let n = speaker(10);
    let via_500 = learned(vec![500, 7], Relationships::CUSTOMERS, 500);
    let via_100 = learned(vec![100, 7], Relationships::CUSTOMERS, 100);
    assert!(n.is_better_ann(&via_500, &via_100));
    assert!(!n.is_better_ann(&via_100, &via_500));
    assert!(!n.is_better_ann(&via_100, &via_100));
}

#[test]
fn looping_and_poisoned_paths_are_dropped() {
    let mut n = speaker(10);
    n.receive_ann(learned(vec![20, 10, 30], Relationships::CUSTOMERS, 20));
    n.receive_ann(learned(vec![20, 0], Relationships::CUSTOMERS, 20));
    n.process_incoming_anns(Relationships::CUSTOMERS, true);
    assert!(n.local_rib.get_ann(&prefix()).is_none());

    n.receive_ann(learned(vec![20, 10], Relationships::CUSTOMERS, 20));
    n.receive_ann(learned(vec![20, 21, 22], Relationships::CUSTOMERS, 20));
    n.process_incoming_anns(Relationships::CUSTOMERS, true);
    assert_eq!(selected(&n).as_path, vec![10, 20, 21, 22]);
}

#[test]
fn seeded_route_is_never_displaced() {
    let mut n = speaker(10);
    n.seed_ann(Announcement::new(prefix(), vec![10], Relationships::ORIGIN)).unwrap();
    let before = selected(&n);
    n.receive_ann(learned(vec![20], Relationships::CUSTOMERS, 20));
    n.receive_ann(learned(vec![30, 31], Relationships::CUSTOMERS, 30));
    n.process_incoming_anns(Relationships::CUSTOMERS, true);
    let after = selected(&n);
    assert_eq!(after, before);
    assert_eq!(after.seed_asn, Some(10));
    assert_eq!(after.as_path, vec![10]);
}

#[test]
fn seeding_twice_conflicts() {
    let mut n = speaker(10);
    assert_eq!(n.seed_ann(Announcement::new(prefix(), vec![10], Relationships::ORIGIN)), Ok(()));
    assert_eq!(
        n.seed_ann(Announcement::new(prefix(), vec![10, 11], Relationships::ORIGIN)),
        Err(BgpError::SeedConflict)
    );
    assert_eq!(selected(&n).as_path, vec![10]);
    let other = Announcement::new("9.9.9.0/24".to_string(), vec![10], Relationships::ORIGIN);
    assert_eq!(n.seed_ann(other), Ok(()));
}

#[test]
fn export_is_valley_free() {
    let mut node = AutonomousSystem::new(10, false, false);
    node.providers = vec![1, 2];
    node.peers = vec![3];
    node.customers = vec![4];
    let mut n = BGP::new(&node);
    n.receive_ann(learned(vec![3, 33], Relationships::PEERS, 3));
    n.process_incoming_anns(Relationships::PEERS, true);
    let p2 = "2.0.0.0/8".to_string();
    n.receive_ann({
        let mut a = Announcement::new(p2.clone(), vec![1, 11], Relationships::PROVIDERS);
        a.seed_asn = None;
        a
    });
    n.process_incoming_anns(Relationships::PROVIDERS, true);
    assert!(n.propagate_to_providers().is_empty());
    assert!(n.propagate_to_peers().is_empty());
    let down = n.propagate_to_customers();
    assert_eq!(down.len(), 2);
    for (asn, a) in &down {
        assert_eq!(*asn, 4);
        assert_eq!(a.next_hop_asn, Some(10));
        assert_eq!(a.recv_relationship, Relationships::CUSTOMERS);
    }

    let p3 = "3.0.0.0/8".to_string();
    n.seed_ann(Announcement::new(p3.clone(), vec![10], Relationships::ORIGIN)).unwrap();
    let up = n.propagate_to_providers();
    assert_eq!(up.len(), 2);
    assert_eq!(up[0].0, 1);
    assert_eq!(up[1].0, 2);
    assert_eq!(up[0].1.prefix, p3);
    assert_eq!(up[0].1.recv_relationship, Relationships::PROVIDERS);
    let side = n.propagate_to_peers();
    assert_eq!(side.len(), 1);
    assert_eq!(side[0].0, 3);
    assert_eq!(side[0].1.recv_relationship, Relationships::PEERS);
    assert_eq!(side[0].1.as_path, vec![10]);
}

#[test]
fn delivery_order_does_not_change_selection() {
    let anns = vec![
        learned(vec![20, 21, 22], Relationships::PEERS, 20),
        learned(vec![30, 31], Relationships::PEERS, 30),
        learned(vec![40, 41, 42, 43], Relationships::PEERS, 40),
    ];
    let mut results = Vec::new();
    for order in [[0, 1, 2], [2, 1, 0], [1, 2, 0]] {
        let mut n = speaker(10);
        for i in order {
            n.receive_ann(anns[i].clone());
        }
        n.process_incoming_anns(Relationships::PEERS, true);
        results.push(selected(&n));
    }
    assert_eq!(results[0].as_path, vec![10, 30, 31]);
    assert_eq!(results[0], results[1]);
    assert_eq!(results[1], results[2]);
}

#[test]
fn processing_rewrites_the_candidate() {
    let n = speaker(10);
    let mut a = learned(vec![20, 21], Relationships::PROVIDERS, 20);
    a.timestamp = 7;
    a.withdraw = true;
    a.bgpsec_next_asn = Some(10);
    a.bgpsec_as_path = vec![20, 21];
    a.only_to_customers = Some(3);
    a.rovpp_blackhole = true;
    a.seed_asn = Some(21);
    let p = n.copy_and_process(&a, Relationships::PEERS);
    assert_eq!(p.prefix, PREFIX);
    assert_eq!(p.as_path, vec![10, 20, 21]);
    assert_eq!(p.next_hop_asn, Some(10));
    assert_eq!(p.seed_asn, None);
    assert_eq!(p.recv_relationship, Relationships::PEERS);
    assert_eq!(p.timestamp, 7);
    assert!(p.withdraw && p.rovpp_blackhole);
    assert_eq!(p.bgpsec_next_asn, Some(10));
    assert_eq!(p.bgpsec_as_path, vec![20, 21]);
    assert_eq!(p.only_to_customers, Some(3));
}

#[test]
fn queue_keeps_arrivals_unless_reset() {
    let mut n = speaker(10);
    n.receive_ann(learned(vec![20], Relationships::CUSTOMERS, 20));
    n.receive_ann(Announcement::new("8.0.0.0/8".to_string(), vec![30, 31], Relationships::CUSTOMERS));
    n.receive_ann(learned(vec![40, 41], Relationships::CUSTOMERS, 40));
    let list = n.recv_q.get_ann_list(&prefix());
    assert_eq!(list.len(), 2);
    assert_eq!(list[0].as_path, vec![20]);
    assert_eq!(list[1].as_path, vec![40, 41]);
    n.process_incoming_anns(Relationships::CUSTOMERS, false);
    assert_eq!(n.recv_q.data.len(), 3);
    assert_eq!(selected(&n).as_path, vec![10, 20]);
    assert_eq!(n.local_rib.get_ann(&"8.0.0.0/8".to_string()).unwrap().as_path, vec![10, 30, 31]);
    n.process_incoming_anns(Relationships::CUSTOMERS, true);
    assert!(n.recv_q.data.is_empty());
    assert!(n.recv_q.get_ann_list(&prefix()).is_empty());
}

#[test]
fn announcement_basics() {
    let a = Announcement::new(prefix(), vec![5], Relationships::ORIGIN);
    assert_eq!(a.next_hop_asn, Some(5));
    assert_eq!(a.seed_asn, Some(5));
    assert_eq!(a.timestamp, 0);
    assert!(!a.withdraw);
    assert_eq!(a.origin(), 5);
    let b = Announcement::new(prefix(), vec![6, 5], Relationships::CUSTOMERS);
    assert_eq!(b.next_hop_asn, None);
    assert_eq!(b.seed_asn, None);
    assert_eq!(b.origin(), 5);
    assert!(!a.prefix_path_attributes_eq(&b));
    let c = Announcement::new(prefix(), vec![6, 5], Relationships::PEERS);
    assert!(b.prefix_path_attributes_eq(&c));
    let mut d = c.clone();
    assert!(!d.bgpsec_valid(6));
    d.bgpsec_next_asn = Some(6);
    d.bgpsec_as_path = vec![6, 5];
    assert!(d.bgpsec_valid(6));
    assert!(!d.bgpsec_valid(7));
    assert_eq!(d.duplicate(), d);
}

#[test]
fn rib_and_queue_containers() {
    let mut rib = LocalRIB::new();
    assert!(rib.get_ann(&prefix()).is_none());
    rib.add_ann(Announcement::new(prefix(), vec![1], Relationships::ORIGIN));
    rib.add_ann(Announcement::new(prefix(), vec![2, 1], Relationships::CUSTOMERS));
    assert_eq!(rib.data.len(), 1);
    assert_eq!(rib.get_ann(&prefix()).unwrap().as_path, vec![2, 1]);
    assert_eq!(rib.find(&prefix()), Some(0));
    let mut q = RecvQueue::new();
    q.add_ann(Announcement::new(prefix(), vec![1], Relationships::ORIGIN));
    assert_eq!(q.get_ann_list(&prefix()).len(), 1);
    assert!(q.get_ann_list(&"x".to_string()).is_empty());
}

#[test]
fn relationship_preference_order() {
    let order = [
        Relationships::PROVIDERS,
        Relationships::PEERS,
        Relationships::CUSTOMERS,
        Relationships::ORIGIN,
        Relationships::UNKNOWN,
    ];
    for w in order.windows(2) {
        assert!(w[0].preference() < w[1].preference());
    }
}

fn process_all(procs: &mut Vec<BGP>, rel: Relationships) {
    for p in procs.iter_mut() {
        p.process_incoming_anns(rel, true);
    }
}

#[test]
fn full_run_exports_are_valley_free() {
    let info = ASGraphInfo {
        customer_provider_links: vec![
            CustomerProviderLink { customer_asn: 1, provider_asn: 3 },
            CustomerProviderLink { customer_asn: 2, provider_asn: 3 },
            CustomerProviderLink { customer_asn: 5, provider_asn: 4 },
            CustomerProviderLink { customer_asn: 4, provider_asn: 6 },
        ],
        peer_links: vec![PeerLink { peer1_asn: 3, peer2_asn: 4 }],
        ixp_asns: vec![],
        input_clique_asns: vec![],
    };
    let g = ASGraph::new(info).unwrap();
    let mut procs: Vec<BGP> = g.as_dict.iter().map(BGP::new).collect();
    let i1 = procs.iter().position(|p| p.asn == 1).unwrap();
    procs[i1].seed_ann(Announcement::new(prefix(), vec![1], Relationships::ORIGIN)).unwrap();

    for _round in 0..3 {
        let mut up = Vec::new();
        for p in &procs {
            up.extend(p.propagate_to_providers());
        }
        for (_, a) in &up {
            assert!(a.recv_relationship == Relationships::PROVIDERS);
        }
        bgpr::bgp::deliver(&mut procs, &up);
        process_all(&mut procs, Relationships::CUSTOMERS);
    }
    let mut side = Vec::new();
    for p in &procs {
        for (to, a) in p.propagate_to_peers() {
            let learned = p.local_rib.get_ann(&a.prefix).unwrap().recv_relationship;
            assert!(learned == Relationships::ORIGIN || learned == Relationships::CUSTOMERS);
            side.push((to, a));
        }
    }
    bgpr::bgp::deliver(&mut procs, &side);
    process_all(&mut procs, Relationships::PEERS);
    for _round in 0..3 {
        let mut up = Vec::new();
        for p in &procs {
            for (to, a) in p.propagate_to_providers() {
                let learned = p.local_rib.get_ann(&a.prefix).unwrap().recv_relationship;
                assert!(learned != Relationships::PEERS && learned != Relationships::PROVIDERS);
                up.push((to, a));
            }
        }
        bgpr::bgp::deliver(&mut procs, &up);
        process_all(&mut procs, Relationships::CUSTOMERS);
        let mut down = Vec::new();
        for p in &procs {
            down.extend(p.propagate_to_customers());
        }
        bgpr::bgp::deliver(&mut procs, &down);
        process_all(&mut procs, Relationships::PROVIDERS);
    }
    let path = |asn: u32| {
        let p = procs.iter().find(|p| p.asn == asn).unwrap();
        p.local_rib.get_ann(&prefix()).map(|a| a.as_path.clone())
    };
    assert_eq!(path(1), Some(vec![1]));
    assert_eq!(path(3), Some(vec![3, 1]));
    assert_eq!(path(2), Some(vec![2, 3, 1]));
    assert_eq!(path(4), Some(vec![4, 3, 1]));
    assert_eq!(path(5), Some(vec![5, 4, 3, 1]));
    // 4 learned the route from a peer: it never reaches 4's provider
    assert_eq!(path(6), None);
}

#[test]
fn delivery_reaches_only_the_addressee() {
    let mut procs = vec![speaker(1), speaker(2)];
    let msgs = vec![
        (2, learned(vec![9], Relationships::CUSTOMERS, 9)),
        (7, learned(vec![8], Relationships::CUSTOMERS, 8)),
        (2, learned(vec![5, 9], Relationships::CUSTOMERS, 5)),
    ];
    bgpr::bgp::deliver(&mut procs, &msgs);
    assert!(procs[0].recv_q.data.is_empty());
    assert_eq!(procs[1].recv_q.data.len(), 2);
    assert_eq!(procs[1].recv_q.data[1].as_path, vec![5, 9]);
}
