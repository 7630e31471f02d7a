use datacenter_simulator::api::Simulator;
use datacenter_simulator::infiniband::topology;
use datacenter_simulator::model::{Error, InterfaceType, LinkSpec, NodeSpec, Role};

fn fabric(medium: Option<&str>) -> (Simulator, String, Vec<String>) {
    let mut api = Simulator::new();
    let id = api.create("ib").unwrap();
    let sim = api.get_mut(&id).unwrap();
    let mut switch = NodeSpec::host("spine");
    switch.role = Role::Switch;
    if let Some(m) = medium {
        switch.labels.push(("simulator.medium".into(), m.into()));
    }
    let switch = sim.create_node(switch).unwrap();
    let mut ports = Vec::new();
    for name in ["hca-b", "hca-a"] {
        let host = sim.create_node(NodeSpec::host(name)).unwrap();
        let a = sim.create_interface(&host, "ib0", InterfaceType::Data).unwrap();
        let b = sim
            .create_interface(&switch, &format!("port-{name}"), InterfaceType::Data)
            .unwrap();
        sim.create_link([&a, &b], LinkSpec::default()).unwrap();
        ports.push(b);
    }
    (api, id, ports)
}

#[test]
fn nodes_and_ports_are_numbered_in_name_order() {
    let (api, id, _) = fabric(None);
    let plan = topology(api.get(&id).unwrap()).unwrap();
    assert_eq!(plan.scope, "infiniband-management");
    assert!(!plan.rdma_payload_tested && !plan.nccl_tested && !plan.bandwidth_latency_enforced);
    let native = |model: &str| {
        plan.nodes
            .iter()
            .find(|(n, _)| n == model)
            .map(|(_, v)| v.clone())
            .unwrap()
    };
    assert_eq!(native("hca-a"), "n0000");
    assert_eq!(native("hca-b"), "n0001");
    assert_eq!(native("spine"), "n0002");
    let port = |key: &str| plan.ports.iter().find(|(k, _)| k == key).map(|(_, p)| *p).unwrap();
    assert_eq!(port("spine:port-hca-a"), 1);
    assert_eq!(port("spine:port-hca-b"), 2);
    assert_eq!(port("hca-b:ib0"), 1);
    let spine = plan.native_nodes.iter().find(|n| n.name == "n0002").unwrap();
    assert!(spine.switch);
    assert_eq!(spine.ports, 2);
    assert_eq!(plan.links.len(), 2);
    let first = &plan.links[0];
    assert_eq!(first.endpoints[0].node, "n0001");
    assert_eq!(first.endpoints[1].node, "n0002");
    assert_eq!(first.endpoints[1].port, 2);
    assert!(first.up);
}

#[test]
fn split_and_management_ports_are_refused() {
    let (mut api, id, ports) = fabric(None);
    api.get_mut(&id).unwrap().breakout(&ports[0], 2).unwrap_err();
    let sim = api.get_mut(&id).unwrap();
    let node = sim.node_named("hca-a").unwrap().id.clone();
    let spare = sim.create_interface(&node, "spare", InterfaceType::Data).unwrap();
    sim.breakout(&spare, 2).unwrap();
    assert!(matches!(topology(api.get(&id).unwrap()), Err(Error::Invalid(_))));
    let (mut api, id, _) = fabric(None);
    let sim = api.get_mut(&id).unwrap();
    let node = sim.node_named("hca-a").unwrap().id.clone();
    sim.create_interface(&node, "eth9", InterfaceType::Oob).unwrap();
    assert!(topology(api.get(&id).unwrap()).is_err());
}

#[test]
fn another_medium_is_refused_and_infiniband_accepted() {
    let (api, id, _) = fabric(Some("\"ethernet\""));
    assert!(matches!(topology(api.get(&id).unwrap()), Err(Error::Invalid(_))));
    let (api, id, _) = fabric(Some("\"infiniband\""));
    assert!(topology(api.get(&id).unwrap()).is_ok());
    let (api, id, _) = fabric(Some("7"));
    assert!(topology(api.get(&id).unwrap()).is_ok());
}

#[test]
fn more_than_255_ports_on_a_node_are_refused() {
    let (mut api, id, _) = fabric(None);
    let sim = api.get_mut(&id).unwrap();
    let node = sim.node_named("hca-a").unwrap().id.clone();
    for p in 0..254 {
        sim.create_interface(&node, &format!("p{p}"), InterfaceType::Data).unwrap();
    }
    assert!(topology(api.get(&id).unwrap()).is_ok());
    sim_add(&mut api, &id, &node);
    assert!(topology(api.get(&id).unwrap()).is_err());
}

fn sim_add(api: &mut Simulator, id: &str, node: &str) {
    api.get_mut(id)
        .unwrap()
        .create_interface(node, "last", InterfaceType::Data)
        .unwrap();
}
