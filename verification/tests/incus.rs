use datacenter_simulator::incus::Config;
use datacenter_simulator::manifest::{
    Manifest, ManifestInterface, ManifestLink, ManifestNode, Topology,
};
use datacenter_simulator::model::{Error, LinkSpec, Role};
use std::collections::BTreeSet;

fn config() -> Config {
    Config {
        project: "ncp-test".into(),
        socket: "/var/lib/incus/unix.socket".into(),
        storage_pool: "default".into(),
        image_fingerprint: "a".repeat(64),
        manifest: "topology.json".into(),
        max_memory_mib: 8192,
    }
}

fn node(os: &str, role: Role, ports: &[&str]) -> ManifestNode {
    ManifestNode {
        os: os.into(),
        cpu: 2,
        memory: 1024,
        storage: 10,
        role,
        interfaces: ports
            .iter()
            .map(|n| (n.to_string(), ManifestInterface::default()))
            .collect(),
        labels: Vec::new(),
        user_data: None,
        meta_data: None,
        image_metadata: Vec::new(),
    }
}

/// One leaf switch and four hosts, each host cabled to the leaf.
fn topology(os: &str) -> Manifest {
    let mut nodes = vec![(
        "leaf".to_string(),
        node(os, Role::Switch, &["swp1", "swp2", "swp3", "swp4"]),
    )];
    let mut links = Vec::new();
    for i in 1..=4 {
        nodes.push((format!("host{i}"), node(os, Role::Host, &["eth0"])));
        links.push(ManifestLink {
            endpoints: [format!("host{i}:eth0"), format!("leaf:swp{i}")],
            condition: LinkSpec::default(),
        });
    }
    Manifest {
        format: "JSON".into(),
        name: "incus".into(),
        ztp: None,
        content: Topology {
            nodes,
            links,
            oob: false,
            enable_dhcp: false,
            services: Vec::new(),
            instructions: Vec::new(),
        },
    }
}

#[test]
fn explicit_ports_and_no_inherited_profile_or_network() {
    let plan = config().plan(topology("cachyos")).unwrap();
    assert_eq!(plan.nodes.len(), 5);
    assert_eq!(plan.cables.len(), 4);
    let mut names = BTreeSet::new();
    for node in &plan.nodes {
        assert_eq!(node.owner, plan.owner);
        assert_eq!(node.pool, "default");
    }
    for nic in &plan.nics {
        assert!(nic.host_name.len() <= 15 && names.insert(nic.host_name.clone()));
    }
    assert_eq!(names.len(), 8);
    for cable in &plan.cables {
        assert!(cable.peers.iter().all(|p| names.contains(p)));
    }
}

#[test]
fn reject_unsafe_names_unknown_image_and_over_budget() {
    for project in ["default", "ncp-x&project=default", "ncp-a/b", "ncp-$(id)"] {
        let mut c = config();
        c.project = project.into();
        assert!(c.plan(topology("cachyos")).is_err());
    }
    let mut c = config();
    c.image_fingerprint = "latest".into();
    assert!(c.plan(topology("cachyos")).is_err());
    let mut c = config();
    c.max_memory_mib = 1;
    assert!(c.plan(topology("cachyos")).is_err());
}

#[test]
fn independent_runs_never_reuse_owner_or_peer_names() {
    let a = config().plan(topology("cachyos")).unwrap();
    let b = config().plan(topology("cachyos")).unwrap();
    assert_ne!(a.owner, b.owner);
    let names: BTreeSet<_> = a.cables.iter().flat_map(|c| c.peers.iter()).collect();
    assert!(b
        .cables
        .iter()
        .flat_map(|c| c.peers.iter())
        .all(|p| !names.contains(p)));
}

#[test]
fn declared_ubuntu_profile_is_explicit_and_mixed_images_are_rejected() {
    let c = config();
    let plan = c.plan(topology("ubuntu-24.04")).unwrap();
    assert!(plan.nodes.iter().all(|n| n.os == "ubuntu-24.04"));
    let mut mixed = topology("ubuntu-24.04");
    mixed.content.nodes[0].1.os = "cachyos".into();
    assert!(c.plan(mixed).is_err());
}

#[test]
fn names_and_cables_follow_name_and_pair_order() {
    let c = config();
    let m = topology("cachyos");
    let mut api = datacenter_simulator::api::Simulator::new();
    let id = api.import(m, false).unwrap();
    let sim = api.get(&id).unwrap();
    let plan = c
        .plan_simulation(sim, "0123abcd-ef01-2345-6789-abcdef012345")
        .unwrap();
    let peer = |node: &str, port: &str| {
        plan.nics
            .iter()
            .find(|n| n.node == node && n.name == port)
            .map(|n| n.host_name.clone())
            .unwrap()
    };
    assert_eq!(peer("host1", "eth0"), "pi0123abcd0000");
    assert_eq!(peer("host4", "eth0"), "pi0123abcd0300");
    assert_eq!(peer("leaf", "swp1"), "pi0123abcd0400");
    assert_eq!(peer("leaf", "swp3"), "pi0123abcd0402");
    let mut cable_names: Vec<_> = plan.cables.iter().map(|c| c.name.clone()).collect();
    cable_names.sort();
    assert_eq!(cable_names, ["pc0123abcd000", "pc0123abcd001", "pc0123abcd002", "pc0123abcd003"]);
    assert!(plan.cables.iter().all(|c| c.queue_packets >= 1024 && c.up));
    assert!(matches!(
        c.plan_simulation(sim, "--ab-"),
        Err(Error::Invalid(_))
    ));
}

#[test]
fn infiniband_nodes_user_data_and_wide_names_are_refused() {
    let mut m = topology("cachyos");
    m.content.nodes[1]
        .1
        .labels
        .push(("simulator.medium".into(), "\"infiniband\"".into()));
    assert!(config().plan(m).is_err());
    let mut m = topology("cachyos");
    m.content.nodes[2].1.user_data = Some("#!/bin/sh".into());
    assert!(config().plan(m).is_err());
    let mut m = topology("cachyos");
    m.content.nodes[0].1.interfaces.push(("a-very-long-port-name".into(), ManifestInterface::default()));
    assert!(config().plan(m).is_err());
    let mut m = topology("cachyos");
    m.content.nodes[0].1.os = "debian".into();
    for n in &mut m.content.nodes {
        n.1.os = "debian".into();
    }
    assert!(config().plan(m).is_err());
}
