use hierarchy_free::analysis::{classify_asn, count_hierachy_free_paths, AsType, HierarchyConfig};
use hierarchy_free::caida::{read_line, BuildError, LineParse};
use hierarchy_free::topology::{RelKind, Relationship, Topology, TopologyError};

fn rel(a: u32, b: u32, kind: RelKind) -> Relationship {
    Relationship { a, b, kind }
}

fn sorted(mut v: Vec<u32>) -> Vec<u32> {
    v.sort();
    v
}

fn config(tier1: Vec<u32>, tier2: Vec<u32>, cloud_providers: Vec<u32>) -> HierarchyConfig {
    HierarchyConfig { tier1, tier2, cloud_providers }
}

fn four_nodes() -> Topology {
    Topology::from_edges(&vec![
        rel(1, 2, RelKind::CustomerToProvider),
        rel(2, 3, RelKind::CustomerToProvider),
        rel(2, 4, RelKind::PeerToPeer),
    ])
}

#[test]
fn four_node_scenario_reach_and_counts() {
    let topo = four_nodes();
    assert_eq!(sorted(topo.valley_free_reach(1)), vec![2, 3, 4]);
    let record = count_hierachy_free_paths(&topo, 1, &config(vec![3], vec![], vec![]));
    assert_eq!(record.asn, 1);
    assert_eq!(record.provider_free, 0);
    assert_eq!(record.tier1_free, 0);
    assert_eq!(record.hierachy_free, 0);
    assert_eq!(record.type_, AsType::Other);
}

#[test]
fn cycle_terminates_with_finite_count() {
    let topo = Topology::from_edges(&vec![
        rel(1, 2, RelKind::ProviderToCustomer),
        rel(2, 3, RelKind::ProviderToCustomer),
        rel(3, 1, RelKind::PeerToPeer),
    ]);
    assert_eq!(sorted(topo.valley_free_reach(1)), vec![2, 3]);
    assert_eq!(sorted(topo.valley_free_reach(3)), vec![1, 2]);
    let record = count_hierachy_free_paths(&topo, 1, &config(vec![], vec![], vec![]));
    assert_eq!(record.provider_free, 2);
}

#[test]
fn valley_is_not_crossed() {
    // 1 and 3 are customers of 2; 3 is a customer of 4. From 1 the path
    // 1 -> 2 -> 3 descends, so 3 -> 4 would climb again.
    let topo = Topology::from_edges(&vec![
        rel(1, 2, RelKind::CustomerToProvider),
        rel(3, 2, RelKind::CustomerToProvider),
        rel(3, 4, RelKind::CustomerToProvider),
    ]);
    assert_eq!(sorted(topo.valley_free_reach(1)), vec![2, 3]);
    assert_eq!(sorted(topo.valley_free_reach(3)), vec![1, 2, 4]);
}

#[test]
fn at_most_one_peer_hop() {
    let topo = Topology::from_edges(&vec![
        rel(1, 2, RelKind::PeerToPeer),
        rel(2, 3, RelKind::PeerToPeer),
        rel(2, 5, RelKind::ProviderToCustomer),
    ]);
    assert_eq!(sorted(topo.valley_free_reach(1)), vec![2, 5]);
}

#[test]
fn stripping_is_monotone_with_exact_counts() {
    let topo = Topology::from_edges(&vec![
        rel(10, 20, RelKind::CustomerToProvider),
        rel(10, 30, RelKind::PeerToPeer),
        rel(30, 31, RelKind::ProviderToCustomer),
        rel(10, 11, RelKind::ProviderToCustomer),
    ]);
    assert_eq!(sorted(topo.valley_free_reach(10)), vec![11, 20, 30, 31]);
    let record = count_hierachy_free_paths(&topo, 10, &config(vec![30], vec![11], vec![]));
    assert_eq!(record.provider_free, 3);
    assert_eq!(record.tier1_free, 1);
    assert_eq!(record.hierachy_free, 0);
    assert!(record.provider_free >= record.tier1_free);
    assert!(record.tier1_free >= record.hierachy_free);
}

#[test]
fn source_in_the_tables_is_not_stripped() {
    let topo = four_nodes();
    let record = count_hierachy_free_paths(&topo, 2, &config(vec![2, 3], vec![2], vec![]));
    assert_eq!(record.type_, AsType::Tier1);
    assert_eq!(record.provider_free, 2);
    assert_eq!(record.tier1_free, 2);
    assert_eq!(record.hierachy_free, 2);
}

#[test]
fn counts_stay_below_node_count() {
    let topo = four_nodes();
    let total = topo.all_asns().len();
    for asn in topo.all_asns() {
        let record = count_hierachy_free_paths(&topo, asn, &config(vec![], vec![], vec![]));
        assert!(record.provider_free <= total - 1);
    }
    assert_eq!(count_hierachy_free_paths(&topo, 3, &config(vec![], vec![], vec![])).provider_free, 2);
}

#[test]
fn absent_asn_reaches_nothing() {
    let topo = four_nodes();
    assert_eq!(topo.providers_of(99), Err(TopologyError::UnknownAsn { asn: 99 }));
    assert!(topo.index_of(99).is_none());
    assert!(topo.valley_free_reach(99).is_empty());
    let record = count_hierachy_free_paths(&topo, 99, &config(vec![3], vec![], vec![]));
    assert_eq!((record.provider_free, record.tier1_free, record.hierachy_free), (0, 0, 0));
}

#[test]
fn providers_of_lists_direct_providers() {
    let topo = four_nodes();
    assert_eq!(sorted(topo.providers_of(1).unwrap()), vec![2]);
    assert_eq!(sorted(topo.providers_of(2).unwrap()), vec![3]);
    assert!(topo.providers_of(3).unwrap().is_empty());
}

#[test]
fn remove_twice_equals_remove_once() {
    let mut once = four_nodes();
    once.remove(2);
    let mut twice = four_nodes();
    twice.remove(2);
    twice.remove(2);
    assert_eq!(sorted(once.all_asns()), vec![1, 3, 4]);
    assert_eq!(sorted(twice.all_asns()), sorted(once.all_asns()));
    assert!(twice.index_of(2).is_none());
    assert!(twice.valley_free_reach(1).is_empty());
    assert_eq!(twice.node_count(), 3);
    twice.remove(77);
    assert_eq!(twice.node_count(), 3);
}

#[test]
fn remove_drops_incident_edges() {
    let mut topo = four_nodes();
    topo.remove(3);
    assert_eq!(sorted(topo.valley_free_reach(1)), vec![2, 4]);
    assert!(topo.providers_of(2).unwrap().is_empty());
}

#[test]
fn all_asns_round_trip() {
    let edges = vec![
        rel(5, 7, RelKind::PeerToPeer),
        rel(7, 9, RelKind::CustomerToProvider),
        rel(5, 7, RelKind::PeerToPeer),
        rel(9, 5, RelKind::ProviderToCustomer),
    ];
    let topo = Topology::from_edges(&edges);
    assert_eq!(sorted(topo.all_asns()), vec![5, 7, 9]);
    assert_eq!(topo.node_count(), 3);
    assert!(Topology::from_edges(&vec![]).all_asns().is_empty());
}

#[test]
fn classification_priority() {
    let c = config(vec![100, 200], vec![200, 300], vec![100, 300, 400]);
    assert_eq!(classify_asn(100, &c), AsType::Tier1);
    assert_eq!(classify_asn(200, &c), AsType::Tier1);
    assert_eq!(classify_asn(300, &c), AsType::Tier2);
    assert_eq!(classify_asn(400, &c), AsType::CloudProvider);
    assert_eq!(classify_asn(500, &c), AsType::Other);
    assert_eq!(AsType::Tier1.to_str(), "tier1");
    assert_eq!(AsType::Tier2.to_str(), "tier2");
    assert_eq!(AsType::CloudProvider.to_str(), "cloud_provider");
    assert_eq!(AsType::Other.to_str(), "other");
}

#[test]
fn caida_file_builds_topology() {
    let data = b"# source: test\n1|2|-1|bgp\n2|3|0|mlp\n\n4|1|-1\n";
    let topo = match Topology::from_caida(data) {
        Ok(t) => t,
        Err(_) => panic!("well-formed input was refused"),
    };
    assert_eq!(sorted(topo.all_asns()), vec![1, 2, 3, 4]);
    assert_eq!(sorted(topo.providers_of(2).unwrap()), vec![1]);
    assert_eq!(sorted(topo.providers_of(1).unwrap()), vec![4]);
    assert_eq!(sorted(topo.valley_free_reach(2)), vec![1, 3, 4]);
    assert_eq!(sorted(topo.valley_free_reach(3)), vec![2]);
}

#[test]
fn caida_last_line_without_newline() {
    let topo = Topology::from_caida(b"4294967295|7|0").ok().unwrap();
    assert_eq!(sorted(topo.all_asns()), vec![7, 4294967295]);
}

#[test]
fn caida_malformed_lines_report_their_number() {
    assert!(matches!(Topology::from_caida(b"1|2|5\n"), Err(BuildError::MalformedRecord { line: 1 })));
    assert!(matches!(Topology::from_caida(b"# c\n1|x|0\n"), Err(BuildError::MalformedRecord { line: 2 })));
    assert!(matches!(Topology::from_caida(b"1|2\n"), Err(BuildError::MalformedRecord { line: 1 })));
    assert!(matches!(Topology::from_caida(b"1|2|0\n3|4|0\n4294967296|1|0\n"), Err(BuildError::MalformedRecord { line: 3 })));
    assert!(matches!(Topology::from_caida(b"|2|0\n"), Err(BuildError::MalformedRecord { line: 1 })));
}

#[test]
fn caida_empty_input_is_empty_topology() {
    let topo = Topology::from_caida(b"").ok().unwrap();
    assert_eq!(topo.node_count(), 0);
}

#[test]
fn read_line_kinds() {
    let data = b"12|34|-1|bgp";
    assert_eq!(read_line(data, 0, data.len()), LineParse::Record(Relationship { a: 12, b: 34, kind: RelKind::ProviderToCustomer }));
    let data = b"12|34|0";
    assert_eq!(read_line(data, 0, data.len()), LineParse::Record(Relationship { a: 12, b: 34, kind: RelKind::PeerToPeer }));
    let data = b"# 12|34|0";
    assert_eq!(read_line(data, 0, data.len()), LineParse::Skip);
    let data = b"12|34|-2";
    assert_eq!(read_line(data, 0, data.len()), LineParse::Malformed);
}

#[test]
fn inverse_kinds() {
    assert_eq!(RelKind::CustomerToProvider.inverse(), RelKind::ProviderToCustomer);
    assert_eq!(RelKind::ProviderToCustomer.inverse(), RelKind::CustomerToProvider);
    assert_eq!(RelKind::PeerToPeer.inverse(), RelKind::PeerToPeer);
}

#[test]
fn reachable_excluding_skips_excluded_nodes() {
    let topo = four_nodes();
    assert_eq!(sorted(topo.reachable_excluding(1, &vec![3])), vec![2, 4]);
    assert_eq!(sorted(topo.reachable_excluding(1, &vec![1, 4])), vec![2, 3]);
}

#[test]
fn paths_graph_keeps_reachable_part() {
    let topo = four_nodes();
    let paths = topo.valley_free_of(1);
    assert_eq!(sorted(paths.all_asns()), vec![1, 2, 3, 4]);
    assert_eq!(sorted(paths.valley_free_reach(1)), vec![2, 3, 4]);
    assert_eq!(sorted(paths.providers_of(1).unwrap()), vec![2]);
    assert_eq!(sorted(paths.providers_of(2).unwrap()), vec![3]);
    assert!(paths.providers_of(4).unwrap().is_empty());
    assert!(topo.valley_free_of(99).all_asns().is_empty());
}

#[test]
fn paths_graph_drops_unreachable_nodes() {
    // 3 is a customer of 4, which 1 cannot reach without a valley.
    let topo = Topology::from_edges(&vec![
        rel(1, 2, RelKind::CustomerToProvider),
        rel(3, 2, RelKind::CustomerToProvider),
        rel(3, 4, RelKind::CustomerToProvider),
    ]);
    let paths = topo.valley_free_of(1);
    assert_eq!(sorted(paths.all_asns()), vec![1, 2, 3]);
    assert_eq!(paths.node_count(), 3);
    assert!(paths.providers_of(3).unwrap().is_empty());
}

#[test]
fn directed_edges_and_nodes() {
    let mut topo = Topology::new();
    topo.add_node(8);
    topo.add_edge(5, 6, RelKind::CustomerToProvider);
    assert_eq!(sorted(topo.all_asns()), vec![5, 6, 8]);
    assert_eq!(sorted(topo.providers_of(5).unwrap()), vec![6]);
    assert!(topo.providers_of(6).unwrap().is_empty());
    assert_eq!(sorted(topo.valley_free_reach(6)), Vec::<u32>::new());
    topo.add_relationship(6, 7, RelKind::ProviderToCustomer);
    assert_eq!(sorted(topo.valley_free_reach(5)), vec![6, 7]);
    assert!(topo.index_of(8).is_some());
}
