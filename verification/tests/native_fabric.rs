use datacenter_simulator::manifest::{
    Manifest, ManifestInterface, ManifestLink, ManifestNode, Topology,
};
use datacenter_simulator::model::{Error, LinkSpec, Role};
use datacenter_simulator::native_fabric::network;

fn node(role: Role, ports: &[&str]) -> ManifestNode {
    ManifestNode {
        os: "ubuntu-24.04".into(),
        cpu: 2,
        memory: 1024,
        storage: 10,
        role,
        interfaces: ports
            .iter()
            .map(|n| (n.to_string(), ManifestInterface::default()))
            .collect(),
        labels: Vec::new(),
        user_data: None,
        meta_data: None,
        image_metadata: Vec::new(),
    }
}

/// A routed star: four compute hosts, each cabled to one switch; cable 1 is compute-a's.
fn fixture() -> Manifest {
    let hosts = ["compute-b", "compute-a", "compute-c", "compute-d"];
    let mut nodes = Vec::new();
    for h in ["compute-a", "compute-b", "compute-c", "compute-d"] {
        nodes.push((h.to_string(), node(Role::Host, &["eth0"])));
    }
    nodes.push(("spine".to_string(), node(Role::Switch, &["swp1", "swp2", "swp3", "swp4"])));
    let links = hosts
        .iter()
        .enumerate()
        .map(|(i, h)| ManifestLink {
            endpoints: [format!("{h}:eth0"), format!("spine:swp{}", i + 1)],
            condition: LinkSpec::default(),
        })
        .collect();
    Manifest {
        format: "JSON".into(),
        name: "native".into(),
        ztp: None,
        content: Topology {
            nodes,
            links,
            oob: false,
            enable_dhcp: false,
            services: Vec::new(),
            instructions: Vec::new(),
        },
    }
}

fn files<'a>(
    plan: &'a datacenter_simulator::native_fabric::GuestConfig,
    node: &str,
) -> &'a Vec<datacenter_simulator::native_fabric::NetworkFile> {
    &plan.ncp_network_files.iter().find(|(n, _)| n == node).unwrap().1
}

#[test]
fn routed_star_compiles_every_cable_without_host_transit() {
    let m = fixture();
    let plan = network(&m, "10.88.0.0/24").unwrap();
    assert_eq!(plan.ncp_addresses.len(), 8);
    assert_eq!(plan.ncp_forwarding.iter().filter(|(_, v)| *v).count(), 1);
    let a = &files(&plan, "compute-a")[0].content;
    assert_eq!(a.matches("[Route]").count(), 3);
    let mut cut = m;
    cut.content.links[1].condition.up = false;
    let p = network(&cut, "10.88.0.0/24").unwrap();
    assert!(!files(&p, "compute-a")[0].content.contains("[Route]"));
    assert!(network(&cut, "10.88.0.0/30").is_err());
    assert!(network(&cut, "10.88.0.1/24").is_err());
}

#[test]
fn duplicate_port_is_rejected_and_top_of_ipv4_space_is_bounded() {
    let mut m = fixture();
    m.content.links[1].endpoints[0] = m.content.links[0].endpoints[0].clone();
    assert!(network(&m, "10.88.0.0/24").is_err());
    let p = network(&fixture(), "255.255.255.0/24").unwrap();
    assert!(p.ncp_addresses.iter().all(|(_, a)| a.starts_with("255.255.255.")));
}

#[test]
fn each_cable_takes_the_next_block_and_its_ends_the_first_two_hosts() {
    let plan = network(&fixture(), "10.88.0.0/24").unwrap();
    let expect = [
        ("compute-b:eth0", "10.88.0.1"),
        ("spine:swp1", "10.88.0.2"),
        ("compute-a:eth0", "10.88.0.5"),
        ("spine:swp2", "10.88.0.6"),
        ("compute-c:eth0", "10.88.0.9"),
        ("spine:swp3", "10.88.0.10"),
        ("compute-d:eth0", "10.88.0.13"),
        ("spine:swp4", "10.88.0.14"),
    ];
    for (k, (e, a)) in expect.iter().enumerate() {
        assert_eq!(plan.ncp_addresses[k].0, *e);
        assert_eq!(plan.ncp_addresses[k].1, *a);
    }
    let forwarding: Vec<(&str, bool)> =
        plan.ncp_forwarding.iter().map(|(n, f)| (n.as_str(), *f)).collect();
    assert_eq!(
        forwarding,
        vec![
            ("compute-a", false),
            ("compute-b", false),
            ("compute-c", false),
            ("compute-d", false),
            ("spine", true)
        ]
    );
}

#[test]
fn host_file_holds_its_address_and_routes_through_the_switch() {
    let plan = network(&fixture(), "10.88.0.0/24").unwrap();
    let a = &files(&plan, "compute-a")[0];
    assert_eq!(a.name, "eth0");
    assert_eq!(
        a.content,
        "[Match]\nName=eth0\n[Network]\nLinkLocalAddressing=no\nIPv6AcceptRA=no\nAddress=10.88.0.5/30\n\
         [Route]\nDestination=10.88.0.0/30\nGateway=10.88.0.6\n\
         [Route]\nDestination=10.88.0.8/30\nGateway=10.88.0.6\n\
         [Route]\nDestination=10.88.0.12/30\nGateway=10.88.0.6\n"
    );
    let spine = files(&plan, "spine");
    assert_eq!(spine.len(), 4);
    assert!(!spine[0].content.contains("[Route]"));
}

#[test]
fn pool_text_is_checked() {
    let m = fixture();
    for bad in ["10.88.0.0", "10.88.0.0/7", "10.88.0.0/31", "010.88.0.0/24", "10.88.0/24", "10.88.0.256/24", "10.88.0.0/x"] {
        assert!(matches!(network(&m, bad), Err(Error::Invalid(_))), "{bad}");
    }
    assert!(network(&m, "10.88.0.0/+24").is_ok());
    assert!(network(&m, "10.88.0.0/27").is_ok());
    assert!(network(&m, "10.88.0.0/28").is_ok());
    assert!(network(&m, "10.88.0.0/29").is_err());
}

#[test]
fn cable_end_must_name_a_port_of_a_node() {
    let mut m = fixture();
    m.content.links[0].endpoints[1] = "spine:swp9".into();
    assert!(matches!(network(&m, "10.88.0.0/24"), Err(Error::Invalid(_))));
    let mut m = fixture();
    m.content.links[0].endpoints[1] = "nowhere:swp1".into();
    assert!(network(&m, "10.88.0.0/24").is_err());
    let mut m = fixture();
    m.content.links[0].endpoints[1] = "spine".into();
    assert!(network(&m, "10.88.0.0/24").is_err());
    let mut m = fixture();
    m.content.links.clear();
    assert!(network(&m, "10.88.0.0/24").is_err());
}
