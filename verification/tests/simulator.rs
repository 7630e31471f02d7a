use datacenter_simulator::api::Simulator;
use datacenter_simulator::collective::{shape, Layout, NcclOptions, Reduction};
use datacenter_simulator::command::{Command, Reply};
use datacenter_simulator::fabric::{Fabric, FabricLimits, Opcode};
use datacenter_simulator::manifest::{
    Manifest, ManifestInterface, ManifestLink, ManifestNode, Topology,
};
use datacenter_simulator::model::{
    Error, InstructionData, InstructionState, Instant, InterfaceType, LinkSpec, NodeSpec, Role,
    ServiceType, Simulation, State,
};

fn star(n: usize) -> (Simulator, String, Vec<String>, Vec<String>) {
    let mut api = Simulator::new();
    let id = api.create("test").unwrap();
    let sim = api.get_mut(&id).unwrap();
    let mut switch = NodeSpec::host("switch");
    switch.role = Role::Switch;
    let switch = sim.create_node(switch).unwrap();
    let mut ranks = Vec::new();
    let mut links = Vec::new();
    for i in 0..n {
        let host = sim.create_node(NodeSpec::host(&format!("gpu{i}"))).unwrap();
        let a = sim.create_interface(&host, "eth0", InterfaceType::Data).unwrap();
        let b = sim
            .create_interface(&switch, &format!("swp{i}"), InterfaceType::Data)
            .unwrap();
        links.push(
            sim.create_link(
                [&a, &b],
                LinkSpec {
                    bandwidth_bps: 8_000_000_000,
                    latency_ns: 100,
                    up: true,
                },
            )
            .unwrap(),
        );
        ranks.push(host);
    }
    sim.start(None).unwrap();
    (api, id, ranks, links)
}

fn snapshot(sim: &Simulation) -> String {
    format!("{:?}", sim)
}

fn down() -> LinkSpec {
    LinkSpec {
        up: false,
        ..LinkSpec::default()
    }
}

fn file(files: &[(&str, &str)]) -> InstructionData {
    InstructionData::File {
        files: files
            .iter()
            .map(|(k, v)| (k.to_string(), v.to_string()))
            .collect(),
    }
}

fn node(os: &str, interfaces: &[&str]) -> ManifestNode {
    ManifestNode {
        os: os.into(),
        cpu: 2,
        memory: 1024,
        storage: 10,
        role: Role::Host,
        interfaces: interfaces
            .iter()
            .map(|n| (n.to_string(), ManifestInterface::default()))
            .collect(),
        labels: Vec::new(),
        user_data: None,
        meta_data: None,
        image_metadata: Vec::new(),
    }
}

fn manifest(name: &str, nodes: Vec<(&str, ManifestNode)>, links: Vec<[&str; 2]>) -> Manifest {
    Manifest {
        format: "JSON".into(),
        name: name.into(),
        ztp: None,
        content: Topology {
            nodes: nodes.into_iter().map(|(n, m)| (n.to_string(), m)).collect(),
            links: links
                .into_iter()
                .map(|[a, b]| ManifestLink {
                    endpoints: [a.into(), b.into()],
                    condition: LinkSpec::default(),
                })
                .collect(),
            oob: false,
            enable_dhcp: false,
            services: Vec::new(),
            instructions: Vec::new(),
        },
    }
}

fn file_value<'a>(files: &'a [(String, String)], key: &str) -> Option<&'a str> {
    files.iter().find(|(k, _)| k == key).map(|(_, v)| v.as_str())
}

#[test]
fn lifecycle_is_strict_and_failed_edits_are_atomic() {
    let (mut api, id, ranks, _) = star(2);
    let sim = api.get_mut(&id).unwrap();
    let before = snapshot(sim);
    assert!(sim.create_node(NodeSpec::host("late")).is_err());
    assert!(sim.start(None).is_err());
    assert_eq!(snapshot(sim), before);
    assert!(sim
        .reset_nodes(&vec![ranks[0].clone(), "missing".into()], false)
        .is_err());
    assert_eq!(snapshot(sim), before);
    sim.shutdown(false).unwrap();
    sim.wait_for_state(State::Inactive).unwrap();
    assert!(sim.transfer(&ranks[0], &ranks[1], 1).is_err());
    sim.start(None).unwrap();
    sim.wait_for_state(State::Active).unwrap();
}

#[test]
fn invalid_import_never_leaks_a_simulation() {
    let mut api = Simulator::new();
    let m = manifest("bad", vec![("a", node("test", &[]))], vec![["a:e0", "missing:e0"]]);
    assert!(api.import(m, false).is_err());
    assert!(api.list(None, None, 0, 100).is_empty());
}

#[test]
fn sdk_example_envelope_and_string_content_import() {
    let mut api = Simulator::new();
    let mut n = node("generic/ubuntu2204", &[]);
    n.image_metadata = vec![
        ("positioning".into(), r#"{"x":0,"y":0}"#.into()),
        ("features".into(), r#"{"uefi":false,"tpm":false}"#.into()),
        ("pxehost".into(), "false".into()),
        ("secureboot".into(), "false".into()),
        ("oob".into(), "false".into()),
        ("network_pci".into(), "{}".into()),
    ];
    let id = api.import(manifest("JSON Sim", vec![("node1", n)], vec![]), false).unwrap();
    let output = api.get(&id).unwrap().export().unwrap();
    let (_, exported) = output
        .content
        .nodes
        .iter()
        .find(|(name, _)| name == "node1")
        .unwrap();
    let features = file_value(&exported.image_metadata, "features").unwrap();
    assert_eq!(features, r#"{"uefi":false,"tpm":false}"#);
}

#[test]
fn export_import_preserves_edges_resources_and_breakout() {
    let (mut api, id, ranks, _) = star(3);
    api.get_mut(&id).unwrap().shutdown(false).unwrap();
    let sim = api.get_mut(&id).unwrap();
    let unused = sim.create_interface(&ranks[0], "spare", InterfaceType::Data).unwrap();
    sim.breakout(&unused, 4).unwrap();
    let expected = format!("{:?}", sim.export().unwrap());
    let new_id = api.import(api.get(&id).unwrap().export().unwrap(), false).unwrap();
    assert_eq!(format!("{:?}", api.get(&new_id).unwrap().export().unwrap()), expected);
    assert_ne!(
        api.get(&id).unwrap().node_named("gpu0").unwrap().id,
        api.get(&new_id).unwrap().node_named("gpu0").unwrap().id
    );
}

#[test]
fn endpoints_cannot_be_reused_or_cross_simulation() {
    let (mut api, id, ranks, _) = star(2);
    let sim = api.get_mut(&id).unwrap();
    sim.shutdown(false).unwrap();
    let a = sim.interface_named(&ranks[0], "eth0").unwrap().id.clone();
    let b = sim.interface_named(&ranks[1], "eth0").unwrap().id.clone();
    let before = snapshot(sim);
    assert!(sim.create_link([&a, &b], LinkSpec::default()).is_err());
    assert!(sim.create_link([&a, "foreign"], LinkSpec::default()).is_err());
    assert_eq!(snapshot(sim), before);
}

#[test]
fn breakout_in_use_rejected_and_revert_removes_children() {
    let (mut api, id, ranks, _) = star(2);
    let sim = api.get_mut(&id).unwrap();
    sim.shutdown(false).unwrap();
    let connected = sim.interface_named(&ranks[0], "eth0").unwrap().id.clone();
    assert!(sim.breakout(&connected, 4).is_err());
    let parent = sim.create_interface(&ranks[0], "spare", InterfaceType::Data).unwrap();
    let children = sim.breakout(&parent, 4).unwrap();
    assert!(sim.delete_interface(&children[0]).is_err());
    sim.revert_breakout(&parent).unwrap();
    assert!(children.iter().all(|id| sim.interface(id).is_err()));
}

#[test]
fn partition_does_not_use_oob_as_a_shortcut() {
    let (mut api, id, ranks, links) = star(2);
    let sim = api.get_mut(&id).unwrap();
    sim.shutdown(false).unwrap();
    sim.set_auto_oob(true, true).unwrap();
    sim.start(None).unwrap();
    sim.set_link(&links[0], down()).unwrap();
    assert!(matches!(sim.transfer(&ranks[0], &ranks[1], 10), Err(Error::NoRoute(..))));
    assert!(sim.node(&ranks[0]).unwrap().management_ip.is_some());
}

#[test]
fn hosts_are_not_transit_routers() {
    let (mut api, id, ranks, _) = star(2);
    let sim = api.get_mut(&id).unwrap();
    sim.shutdown(false).unwrap();
    let node = sim.node_named("switch").unwrap().clone();
    let mut spec = node.spec;
    spec.role = Role::Host;
    sim.update_node(&node.id, spec).unwrap();
    sim.start(None).unwrap();
    assert!(sim.route(&ranks[0], &ranks[1], 8).is_err());
}

#[test]
fn link_serialization_contention_and_full_duplex() {
    let (mut api, id, ranks, _) = star(2);
    let sim = api.get_mut(&id).unwrap();
    let first = sim.schedule_transfer(&ranks[0], &ranks[1], 1000, 0).unwrap();
    assert_eq!(first.completed_ns, 2200);
    let second = sim.schedule_transfer(&ranks[0], &ranks[1], 1000, 0).unwrap();
    assert_eq!(second.completed_ns, 3200);
    let reverse = sim.schedule_transfer(&ranks[1], &ranks[0], 1000, 0).unwrap();
    assert_eq!(reverse.completed_ns, 2200);
}

#[test]
fn parallel_links_and_fault_rerouting() {
    let (mut api, id, ranks, links) = star(2);
    let sim = api.get_mut(&id).unwrap();
    sim.shutdown(false).unwrap();
    let switch = sim.node_named("switch").unwrap().id.clone();
    let a = sim.create_interface(&ranks[0], "eth1", InterfaceType::Data).unwrap();
    let b = sim.create_interface(&switch, "swp99", InterfaceType::Data).unwrap();
    let parallel = sim
        .create_link(
            [&a, &b],
            LinkSpec {
                bandwidth_bps: 1_000_000,
                latency_ns: 10000,
                up: true,
            },
        )
        .unwrap();
    sim.start(None).unwrap();
    assert_eq!(sim.route(&ranks[0], &ranks[1], 1000).unwrap()[0], links[0]);
    sim.set_link(&links[0], down()).unwrap();
    assert_eq!(sim.route(&ranks[0], &ranks[1], 1000).unwrap()[0], parallel);
}

#[test]
fn disconnected_collective_is_rejected_without_mutation() {
    let (mut api, id, ranks, links) = star(3);
    let sim = api.get_mut(&id).unwrap();
    sim.set_link(&links[2], down()).unwrap();
    let before = snapshot(sim);
    assert!(matches!(
        sim.all_reduce(&ranks, &vec![7; 3], &vec![true; 3], Reduction::Sum, &NcclOptions::default()),
        Err(Error::NoRoute(..))
    ));
    assert_eq!(snapshot(sim), before);
}

#[test]
fn checkpoints_capture_guest_state_and_clone_has_fresh_ids() {
    let (mut api, id, ranks, _) = star(1);
    let sim = api.get_mut(&id).unwrap();
    sim.shutdown(false).unwrap();
    sim.create_instruction(&ranks[0], file(&[("/etc/test", "before")]), false).unwrap();
    sim.start(None).unwrap();
    let cp = sim.shutdown(true).unwrap().unwrap();
    sim.rebuild(None).unwrap();
    assert!(sim.runtime(&ranks[0]).unwrap().files.is_empty());
    sim.start(Some(&cp)).unwrap();
    assert_eq!(file_value(&sim.runtime(&ranks[0]).unwrap().files, "/etc/test"), Some("before"));
    let cloned = api.clone_simulation(&id, "clone", Some(&cp), true).unwrap();
    let node = api.get(&cloned).unwrap().node_named("gpu0").unwrap();
    assert_ne!(node.id, ranks[0]);
    assert_eq!(
        file_value(&api.get(&cloned).unwrap().runtime(&node.id).unwrap().files, "/etc/test"),
        Some("before")
    );
}

#[test]
fn unsupported_guest_code_is_never_reported_as_executed() {
    let (mut api, id, ranks, _) = star(1);
    let sim = api.get_mut(&id).unwrap();
    sim.shutdown(false).unwrap();
    assert!(matches!(
        sim.create_instruction(
            &ranks[0],
            InstructionData::Shell {
                commands: vec!["touch /tmp/x".into()]
            },
            true
        ),
        Err(Error::Unsupported(_))
    ));
    sim.create_ztp_script("echo boot".into()).unwrap();
    assert!(matches!(sim.start(None), Err(Error::Unsupported(_))));
    assert_eq!(sim.state(), State::Inactive);
}

#[test]
fn delete_cascades_and_services_are_immutable_descriptors() {
    let (mut api, id, ranks, _) = star(2);
    let sim = api.get_mut(&id).unwrap();
    sim.shutdown(false).unwrap();
    let i = sim.interface_named(&ranks[0], "eth0").unwrap().id.clone();
    sim.create_service(&i, "ssh", 22, ServiceType::SSH).unwrap();
    assert!(sim.services()[0].worker_port.is_none());
    assert!(sim.create_service(&i, "other", 22, ServiceType::SSH).is_err());
    sim.delete_node(&ranks[0]).unwrap();
    assert_eq!(sim.links().len(), 1);
    assert_eq!(sim.services().len(), 0);
    assert!(sim.interfaces().iter().all(|i| i
        .connection
        .as_ref()
        .is_none_or(|id| sim.interface(id).is_ok())));
}

#[test]
fn software_verbs_transfer_and_protection() {
    let (mut api, id, ranks, _) = star(2);
    let sim = api.get_mut(&id).unwrap();
    let mut f = Fabric::new(sim, 4).unwrap();
    let a = f.create_qp(sim, &ranks[0]).unwrap();
    let b = f.create_qp(sim, &ranks[1]).unwrap();
    f.connect(sim, &a, &b).unwrap();
    let src = f.register(sim, &ranks[0], vec![1, 2, 3, 4], false).unwrap();
    let dst = f.register(sim, &ranks[1], vec![0; 8], true).unwrap();
    assert!(f.send(sim, &a, &src, 0..4, 1).is_err());
    assert_eq!(sim.clock_ns(), 0);
    f.post_receive(sim, &b, &dst, 2..6, 99).unwrap();
    assert!(f.deregister(&dst).is_err());
    f.send(sim, &a, &src, 0..4, 1).unwrap();
    assert_eq!(f.bytes(sim, &dst).unwrap(), [0, 0, 1, 2, 3, 4, 0, 0]);
    assert_eq!(f.poll(sim, &a).unwrap().unwrap().opcode, Opcode::Send);
    assert_eq!(f.poll(sim, &b).unwrap().unwrap().wr_id, 99);
    let before = f.bytes(sim, &dst).unwrap().to_vec();
    let clock = sim.clock_ns();
    assert!(f.write(sim, &a, &src, 0..4, &dst, 0, "bad-key", 2).is_err());
    assert_eq!(f.bytes(sim, &dst).unwrap(), before);
    assert_eq!(sim.clock_ns(), clock);
    let key = f.remote_key(sim, &dst).unwrap().to_string();
    f.write(sim, &a, &src, 0..4, &dst, 0, &key, 2).unwrap();
    assert_eq!(&f.bytes(sim, &dst).unwrap()[..4], &[1, 2, 3, 4]);
    sim.reset_nodes(&vec![ranks[0].clone()], false).unwrap();
    assert!(f.bytes(sim, &src).is_err());
    assert!(f.poll(sim, &a).is_err());
}

#[test]
fn verbs_queue_limits_and_cross_domain_access_are_checked() {
    let (mut api, id, ranks, _) = star(2);
    let sim = api.get_mut(&id).unwrap();
    let mut f = Fabric::new(sim, 1).unwrap();
    let a = f.create_qp(sim, &ranks[0]).unwrap();
    let b = f.create_qp(sim, &ranks[1]).unwrap();
    f.connect(sim, &a, &b).unwrap();
    let src = f.register(sim, &ranks[0], vec![7; 4], false).unwrap();
    let dst = f.register(sim, &ranks[1], vec![0; 4], false).unwrap();
    assert!(f.post_receive(sim, &b, &src, 0..4, 1).is_err());
    assert!(f.post_receive(sim, &b, &dst, 0..5, 1).is_err());
    f.post_receive(sim, &b, &dst, 0..4, 1).unwrap();
    assert!(f.post_receive(sim, &b, &dst, 0..4, 2).is_err());
    f.send(sim, &a, &src, 0..4, 1).unwrap();
    f.post_receive(sim, &b, &dst, 0..4, 2).unwrap();
    assert!(f.send(sim, &a, &src, 0..4, 2).is_err());
    f.poll(sim, &a).unwrap();
    f.poll(sim, &b).unwrap();
    f.send(sim, &a, &src, 0..4, 2).unwrap();
}

#[test]
fn invalid_verbs_range_never_changes_memory() {
    for end in [5usize, 6, 64, 4096, usize::MAX / 2, usize::MAX - 1, usize::MAX] {
        let (mut api, id, ranks, _) = star(2);
        let sim = api.get_mut(&id).unwrap();
        let mut f = Fabric::new(sim, 1).unwrap();
        let a = f.create_qp(sim, &ranks[0]).unwrap();
        let b = f.create_qp(sim, &ranks[1]).unwrap();
        f.connect(sim, &a, &b).unwrap();
        let src = f.register(sim, &ranks[0], vec![1; 4], false).unwrap();
        assert!(f.send(sim, &a, &src, 0..end, 1).is_err());
        assert_eq!(sim.clock_ns(), 0);
        assert_eq!(f.bytes(sim, &src).unwrap(), &[1, 1, 1, 1]);
    }
}

#[test]
fn every_collective_requires_native_execution_including_empty_and_single_rank() {
    let (api, id, ranks, _) = star(2);
    let sim = api.get(&id).unwrap();
    let before = snapshot(sim);
    let one = vec![ranks[0].clone()];
    for result in [
        sim.all_reduce(&ranks, &vec![1, 1], &vec![true, true], Reduction::Sum, &NcclOptions::default()),
        sim.broadcast(&ranks, 1, 1, true, &NcclOptions::default()),
        sim.all_gather(&ranks, &vec![1, 1], &vec![true, true], &NcclOptions::default()),
        sim.reduce_scatter(&ranks, &vec![2, 2], &vec![true, true], Reduction::Sum, &NcclOptions::default()),
        sim.all_reduce(&one, &vec![0], &vec![true], Reduction::Sum, &NcclOptions::default()),
        sim.all_gather(&ranks, &vec![0, 0], &vec![true, true], &NcclOptions::default()),
    ] {
        assert!(matches!(result, Err(Error::Unsupported(_))));
    }
    assert_eq!(snapshot(sim), before);
}

#[test]
fn collective_shapes_and_device_placement_are_validated_before_execution() {
    assert!(shape(&Layout::AllGather, &vec![1, 0], &vec![true, true], 2).is_err());
    assert!(shape(
        &Layout::ReduceScatter {
            reduction: Reduction::Sum
        },
        &vec![3, 3],
        &vec![true, true],
        2
    )
    .is_err());
    assert!(shape(&Layout::Broadcast { root: 2 }, &vec![1], &vec![true], 2).is_err());
    let nan = [f64::NAN];
    assert!(shape(
        &Layout::AllReduce {
            reduction: Reduction::Sum
        },
        &vec![nan.len()],
        &vec![nan.iter().all(|v| v.is_finite())],
        1
    )
    .is_err());
    assert!(shape(&Layout::AllGather, &vec![1_048_577; 3], &vec![true; 3], 3).is_err());
    for devices in [vec![0, 0], vec![-1, 1], vec![0]] {
        assert!(NcclOptions {
            devices,
            ..NcclOptions::default()
        }
        .devices_for(2)
        .is_err());
    }
    assert!(NcclOptions {
        timeout_secs: 0,
        ..NcclOptions::default()
    }
    .devices_for(2)
    .is_err());
}

#[test]
fn json_collectives_never_return_cpu_results() {
    let (mut api, id, ranks, _) = star(2);
    let execution = NcclOptions::default;
    for command in [
        Command::AllReduce {
            simulation: id.clone(),
            execution: execution(),
            ranks: ranks.clone(),
            lengths: vec![1, 1],
            finite: vec![true, true],
            reduction: Reduction::Sum,
        },
        Command::Broadcast {
            simulation: id.clone(),
            execution: execution(),
            ranks: ranks.clone(),
            root: 1,
            length: 1,
            finite: true,
        },
        Command::AllGather {
            simulation: id.clone(),
            execution: execution(),
            ranks: ranks.clone(),
            lengths: vec![1, 1],
            finite: vec![true, true],
        },
        Command::ReduceScatter {
            simulation: id.clone(),
            execution: execution(),
            ranks: ranks.clone(),
            lengths: vec![2, 2],
            finite: vec![true, true],
            reduction: Reduction::Sum,
        },
    ] {
        match api.execute(command) {
            Err(Error::Unsupported(message)) => assert!(message.contains("native --features nccl")),
            other => panic!("unexpected {other:?}"),
        }
    }
}

#[test]
fn schedules_shutdown_and_expire_only_the_due_simulations() {
    let (mut api, id, _, _) = star(1);
    let now = Instant {
        secs: 1_700_000_000,
        nanos: 0,
    };
    let later = Instant {
        secs: now.secs + 10,
        nanos: 0,
    };
    api.get_mut(&id).unwrap().set_schedule(Some(now), Some(later)).unwrap();
    assert!(api.tick(now).is_empty());
    assert_eq!(api.get(&id).unwrap().state(), State::Inactive);
    assert_eq!(api.tick(later), vec![id.clone()]);
    assert!(api.get(&id).is_err());
}

#[test]
fn json_commands_reject_unknown_fields_and_preserve_session() {
    let mut api = Simulator::new();
    assert!(api
        .execute(Command::Delete {
            simulation: "missing".into()
        })
        .is_err());
    let created = api.execute(Command::Create { name: "x".into() });
    assert!(matches!(created, Ok(Reply::Id(_))));
    match api.execute(Command::List {
        name: None,
        state: None,
        offset: 0,
        limit: 100,
    }) {
        Ok(Reply::Simulations(ids)) => assert_eq!(ids.len(), 1),
        other => panic!("unexpected {other:?}"),
    }
}

#[test]
fn unrepresentable_path_duration_returns_error_without_clock_mutation() {
    let mut api = Simulator::new();
    let id = api.create("slow").unwrap();
    let sim = api.get_mut(&id).unwrap();
    let mut nodes = Vec::new();
    for i in 0..142 {
        let mut node = NodeSpec::host(&format!("n{i}"));
        node.role = Role::Switch;
        nodes.push(sim.create_node(node).unwrap());
    }
    for pair in nodes.windows(2) {
        let a = sim.create_interface(&pair[0], "out", InterfaceType::Data).unwrap();
        let b = sim.create_interface(&pair[1], "in", InterfaceType::Data).unwrap();
        sim.create_link(
            [&a, &b],
            LinkSpec {
                bandwidth_bps: 1,
                latency_ns: 0,
                up: true,
            },
        )
        .unwrap();
    }
    sim.start(None).unwrap();
    assert!(matches!(
        sim.transfer(&nodes[0], &nodes[141], 16 * 1024 * 1024),
        Err(Error::Invalid(_))
    ));
    assert_eq!(sim.clock_ns(), 0);
}

#[test]
fn audit_monotonic_scheduler_and_reset_cancel_reservations() {
    let (mut api, id, ranks, _) = star(2);
    let sim = api.get_mut(&id).unwrap();
    sim.schedule_transfer(&ranks[0], &ranks[1], 1000, 10_000).unwrap();
    assert!(matches!(
        sim.schedule_transfer(&ranks[0], &ranks[1], 1000, 1),
        Err(Error::Invalid(_))
    ));
    sim.reset_nodes(&vec![ranks[0].clone()], false).unwrap();
    let transfer = sim.schedule_transfer(&ranks[0], &ranks[1], 1000, 0).unwrap();
    assert_eq!(transfer.hops[0].start_ns, 0);
}

#[test]
fn audit_checkpoint_rejects_every_configuration_change_atomically() {
    for change in 0..6 {
        let (mut api, id, ranks, links) = star(2);
        let sim = api.get_mut(&id).unwrap();
        let cp = sim.shutdown(true).unwrap().unwrap();
        match change {
            0 => {
                sim.create_node(NodeSpec::host("later")).unwrap();
            }
            1 => {
                sim.create_instruction(&ranks[0], file(&[("/late", "late")]), false).unwrap();
            }
            2 => {
                sim.create_interface(&ranks[0], "extra", InterfaceType::Data).unwrap();
            }
            3 => {
                let mut spec = sim.node(&ranks[0]).unwrap().spec.clone();
                spec.resources.cpu += 1;
                sim.update_node(&ranks[0], spec).unwrap();
            }
            4 => {
                sim.set_link(&links[0], down()).unwrap();
            }
            _ => {
                let iface = sim.interface_named(&ranks[0], "eth0").unwrap().id.clone();
                sim.create_service(&iface, "ssh", 22, ServiceType::SSH).unwrap();
            }
        }
        let before = snapshot(sim);
        assert!(matches!(sim.start(Some(&cp)), Err(Error::Conflict(_))), "case {change}");
        assert_eq!(snapshot(sim), before);
        assert!(matches!(
            api.clone_simulation(&id, "bad clone", Some(&cp), true),
            Err(Error::Conflict(_))
        ));
        assert_eq!(api.list(None, None, 0, 100).len(), 1);
    }
}

#[test]
fn audit_pending_checkpoint_instruction_is_not_falsely_complete() {
    let mut api = Simulator::new();
    let id = api.create("pending").unwrap();
    let sim = api.get_mut(&id).unwrap();
    let node = sim.create_node(NodeSpec::host("a")).unwrap();
    sim.create_instruction(
        &node,
        InstructionData::Init {
            hostname: "applied".into(),
        },
        false,
    )
    .unwrap();
    let cp = sim.create_checkpoint("before-start").unwrap();
    sim.start(None).unwrap();
    sim.shutdown(false).unwrap();
    sim.rebuild(Some(&cp)).unwrap();
    assert_eq!(sim.instructions()[0].state, InstructionState::Pending);
    let clone = api.clone_simulation(&id, "clone", Some(&cp), true).unwrap();
    let sim = api.get(&clone).unwrap();
    assert_eq!(
        sim.runtime(&sim.node_named("a").unwrap().id).unwrap().hostname,
        "applied"
    );
}

#[test]
fn audit_addresses_macs_and_quotas_are_stable() {
    let (mut api, id, _, _) = star(2);
    let sim = api.get_mut(&id).unwrap();
    sim.shutdown(false).unwrap();
    sim.set_auto_oob(true, true).unwrap();
    let leases: Vec<(String, Option<String>)> = sim
        .nodes()
        .iter()
        .map(|n| (n.spec.name.clone(), n.management_ip.clone()))
        .collect();
    sim.create_node(NodeSpec::host("aaa-new")).unwrap();
    for (name, ip) in &leases {
        assert_eq!(&sim.node_named(name).unwrap().management_ip, ip);
    }
    let macs: std::collections::BTreeSet<_> = sim.interfaces().iter().map(|i| &i.mac_address).collect();
    assert_eq!(macs.len(), sim.interfaces().len());
    sim.set_history_limit(3);
    for _ in 0..12 {
        sim.update(None, Some(Some("x".into()))).unwrap();
    }
    assert_eq!(sim.history().len(), 3);
    let mut limited = Simulator::with_capacity_limit(1);
    limited.create("one").unwrap();
    assert!(limited.create("two").is_err());
    assert!(limited
        .import(api.get(&id).unwrap().export().unwrap(), false)
        .is_err());
}

#[test]
fn audit_manifest_typos_are_rejected() {
    let mut cpus = node("x", &[]);
    cpus.image_metadata = vec![("cpus".into(), "4".into())];
    for m in [
        manifest("typo", vec![("a", cpus)], vec![]),
        manifest(
            "typo",
            vec![("a", node("x", &["eth0"])), ("b", node("x", &["eth0"]))],
            vec![["a:et0", "b:eth0"]],
        ),
    ] {
        let mut api = Simulator::new();
        assert!(api.import(m, false).is_err());
        assert!(api.list(None, None, 0, 10).is_empty());
    }
}

#[test]
fn audit_native_queue_accounts_for_high_bdp() {
    let link = LinkSpec {
        bandwidth_bps: 400_000_000_000,
        latency_ns: 1_000_000_000,
        up: true,
    };
    assert_eq!(link.native_queue_packets().unwrap(), 66_667_692);
    assert!(LinkSpec {
        bandwidth_bps: u64::MAX,
        latency_ns: 1_000_000_000_000,
        up: true
    }
    .native_queue_packets()
    .is_err());
}

#[test]
fn audit_collective_admission_scales_without_reconstructing_all_pairs() {
    let (api, id, ranks, _) = star(1024);
    let start = std::time::Instant::now();
    let result = api.get(&id).unwrap().all_reduce(
        &ranks,
        &vec![0; ranks.len()],
        &vec![true; ranks.len()],
        Reduction::Sum,
        &NcclOptions::default(),
    );
    assert!(matches!(result, Err(Error::Unsupported(_))));
    assert!(start.elapsed() < std::time::Duration::from_secs(10));
}

#[test]
fn audit_clone_preserves_management_leases_after_insertion() {
    let (mut api, id, _, _) = star(2);
    let sim = api.get_mut(&id).unwrap();
    sim.shutdown(false).unwrap();
    sim.set_auto_oob(true, true).unwrap();
    sim.create_node(NodeSpec::host("aaa")).unwrap();
    let leases: Vec<(String, Option<String>)> = sim
        .nodes()
        .iter()
        .map(|n| (n.spec.name.clone(), n.management_ip.clone()))
        .collect();
    let clone = api.clone_simulation(&id, "clone", None, false).unwrap();
    for n in api.get(&clone).unwrap().nodes() {
        let (_, ip) = leases.iter().find(|(name, _)| *name == n.spec.name).unwrap();
        assert_eq!(ip, &n.management_ip);
    }
}

fn small() -> (Simulator, String, String, String) {
    let mut api = Simulator::new();
    let id = api.create("budgets").unwrap();
    let sim = api.get_mut(&id).unwrap();
    let node = sim.create_node(NodeSpec::host("a")).unwrap();
    let port = sim.create_interface(&node, "eth0", InterfaceType::Data).unwrap();
    (api, id, node, port)
}

#[test]
fn counts_and_bulk_breakout_fail_before_mutation() {
    let (mut api, id, node, port) = small();
    let sim = api.get_mut(&id).unwrap();
    let mut limits = *sim.limits();
    limits.interfaces = 3;
    limits.services = 1;
    limits.instructions = 1;
    limits.checkpoints = 1;
    limits.links = 0;
    sim.set_limits(limits).unwrap();
    let before = snapshot(sim);
    assert!(sim.breakout(&port, 4).is_err());
    assert_eq!(snapshot(sim), before);
    let port2 = sim.create_interface(&node, "eth1", InterfaceType::Data).unwrap();
    let before = snapshot(sim);
    assert!(sim.create_link([&port, &port2], LinkSpec::default()).is_err());
    assert_eq!(snapshot(sim), before);
    sim.create_service(&port, "ssh", 22, ServiceType::SSH).unwrap();
    sim.create_instruction(
        &node,
        InstructionData::Init {
            hostname: "guest".into(),
        },
        true,
    )
    .unwrap();
    sim.create_checkpoint("first").unwrap();
    let before = snapshot(sim);
    assert!(sim.create_service(&port, "http", 80, ServiceType::HTTP).is_err());
    assert!(sim
        .create_instruction(
            &node,
            InstructionData::Init {
                hostname: "other".into()
            },
            true
        )
        .is_err());
    assert!(sim.create_checkpoint("second").is_err());
    assert_eq!(snapshot(sim), before);
}

#[test]
fn manifests_canonicalize_services_and_instruction_application() {
    let (mut api, id, node, port) = small();
    let sim = api.get_mut(&id).unwrap();
    sim.create_service(&port, "z", 81, ServiceType::HTTP).unwrap();
    sim.create_service(&port, "a", 22, ServiceType::SSH).unwrap();
    for value in ["z", "a"] {
        sim.create_instruction(&node, file(&[("/same", value)]), true).unwrap();
    }
    let manifest = sim.export().unwrap();
    let expected = format!("{:?}", manifest);
    for _ in 0..8 {
        let cloned = api.import(manifest.clone(), true).unwrap();
        let sim = api.get(&cloned).unwrap();
        assert_eq!(format!("{:?}", sim.export().unwrap()), expected);
        assert_eq!(
            file_value(&sim.runtime(&sim.node_named("a").unwrap().id).unwrap().files, "/same"),
            Some("z")
        );
    }
}

#[test]
fn breakout_children_must_remain_data_interfaces() {
    let (mut api, id, _, port) = small();
    api.get_mut(&id).unwrap().breakout(&port, 2).unwrap();
    let mut manifest = api.get(&id).unwrap().export().unwrap();
    let (_, a) = manifest.content.nodes.iter_mut().find(|(n, _)| n == "a").unwrap();
    let (_, child) = a
        .interfaces
        .iter_mut()
        .find(|(_, i)| i.split_parent.is_some())
        .unwrap();
    child.interface_type = InterfaceType::Oob;
    let count = api.list(None, None, 0, 100).len();
    assert!(api.import(manifest, false).is_err());
    assert_eq!(api.list(None, None, 0, 100).len(), count);
}

#[test]
fn rename_preserves_guest_hostname_until_explicit_rebuild_and_active_services_are_immutable() {
    let (mut api, id, node, port) = small();
    let sim = api.get_mut(&id).unwrap();
    let service = sim.create_service(&port, "ssh", 22, ServiceType::SSH).unwrap();
    sim.update_node(&node, NodeSpec::host("renamed")).unwrap();
    assert_eq!(sim.runtime(&node).unwrap().hostname, "a");
    sim.rebuild(None).unwrap();
    assert_eq!(sim.runtime(&node).unwrap().hostname, "renamed");
    sim.start(None).unwrap();
    let before = snapshot(sim);
    assert!(sim.delete_service(&service).is_err());
    assert!(sim.create_service(&port, "new", 80, ServiceType::HTTP).is_err());
    assert_eq!(snapshot(sim), before);
}

fn connect(sim: &mut Simulation, a: &str, b: &str, port: &str, latency: u64) {
    let x = sim.create_interface(a, port, InterfaceType::Data).unwrap();
    let y = sim.create_interface(b, port, InterfaceType::Data).unwrap();
    sim.create_link(
        [&x, &y],
        LinkSpec {
            bandwidth_bps: 8_000_000_000,
            latency_ns: latency,
            up: true,
        },
    )
    .unwrap();
}

#[test]
fn route_ties_ignore_undirected_endpoint_orientation() {
    let mut api = Simulator::new();
    let id = api.create("ties").unwrap();
    let sim = api.get_mut(&id).unwrap();
    let a = sim.create_node(NodeSpec::host("a")).unwrap();
    let b = sim.create_node(NodeSpec::host("b")).unwrap();
    connect(sim, &a, &b, "p1", 100);
    connect(sim, &a, &b, "p2", 100);
    let manifest = sim.export().unwrap();
    let one = api.import(manifest.clone(), true).unwrap();
    let mut flipped = manifest;
    flipped.content.links[0].endpoints.reverse();
    let two = api.import(flipped, true).unwrap();
    let chosen = |id: &str| {
        let s = api.get(id).unwrap();
        let route = s
            .route(&s.node_named("a").unwrap().id, &s.node_named("b").unwrap().id, 8)
            .unwrap();
        let link = s.links().iter().find(|l| l.id == route[0]).unwrap();
        s.interface(&link.interfaces[0]).unwrap().name.clone()
    };
    assert_eq!(chosen(&one), chosen(&two));
}

#[test]
fn aggregate_fabric_budgets_release_capacity_on_delete_and_poll() {
    let mut api = Simulator::new();
    let id = api.create("fabric").unwrap();
    let sim = api.get_mut(&id).unwrap();
    let n = sim.create_node(NodeSpec::host("host")).unwrap();
    sim.start(None).unwrap();
    let mut fabric = Fabric::with_limits(
        sim,
        10,
        FabricLimits {
            queue_pairs: 2,
            memory_regions: 2,
            queued_entries: 2,
            payload_bytes: 2,
        },
    )
    .unwrap();
    let a = fabric.create_qp(sim, &n).unwrap();
    let b = fabric.create_qp(sim, &n).unwrap();
    assert!(fabric.create_qp(sim, &n).is_err());
    let m = fabric.register(sim, &n, vec![1], false).unwrap();
    let target = fabric.register(sim, &n, vec![0], false).unwrap();
    assert!(fabric.register(sim, &n, vec![0], false).is_err());
    fabric.connect(sim, &a, &b).unwrap();
    fabric.post_receive(sim, &b, &target, 0..1, 1).unwrap();
    fabric.post_receive(sim, &b, &target, 0..1, 2).unwrap();
    let before = fabric.usage();
    assert!(fabric.send(sim, &a, &m, 0..1, 3).is_err());
    assert_eq!(fabric.usage(), before);
    fabric.destroy_qp(&b).unwrap();
    assert_eq!(fabric.usage().queued_entries, 0);
    fabric.deregister(&target).unwrap();
    assert_eq!(fabric.usage().payload_bytes, 1);
    let b = fabric.create_qp(sim, &n).unwrap();
    fabric.destroy_qp(&a).unwrap();
    let a = fabric.create_qp(sim, &n).unwrap();
    fabric.connect(sim, &a, &b).unwrap();
    fabric.post_receive(sim, &b, &m, 0..1, 1).unwrap();
    fabric.send(sim, &a, &m, 0..1, 3).unwrap();
    assert_eq!(fabric.usage().queued_entries, 2);
    fabric.poll(sim, &a).unwrap();
    fabric.poll(sim, &b).unwrap();
    assert_eq!(fabric.usage().queued_entries, 0);
}

#[test]
fn create_and_update_through_commands() {
    let mut api = Simulator::new();
    let id = match api.execute(Command::Create { name: "first".into() }) {
        Ok(Reply::Id(id)) => id,
        other => panic!("unexpected {other:?}"),
    };
    assert_eq!(api.get(&id).unwrap().state, State::Inactive);
    assert!(matches!(
        api.execute(Command::Create { name: "".into() }),
        Err(Error::Invalid(_))
    ));
    assert!(matches!(
        api.execute(Command::Update { simulation: id.clone(), name: "renamed".into() }),
        Ok(Reply::Nothing)
    ));
    assert_eq!(api.get(&id).unwrap().name, "renamed");
    assert!(matches!(
        api.execute(Command::Delete { simulation: id.clone() }),
        Ok(Reply::Nothing)
    ));
    assert!(matches!(api.get(&id), Err(Error::NotFound(_))));
}

#[test]
fn route_is_found_between_hosts_through_a_switch() {
    let (api, id, ranks, _links) = star(3);
    let sim = api.get(&id).unwrap();
    let route = sim.route(&ranks[0], &ranks[2], 8).unwrap();
    assert_eq!(route.len(), 2);
    assert!(matches!(sim.route(&ranks[0], &ranks[1], 17 * 1024 * 1024), Err(Error::Invalid(_))));
}

#[test]
fn hosts_never_carry_transit() {
    let mut api = Simulator::new();
    let id = api.create("chain").unwrap();
    let sim = api.get_mut(&id).unwrap();
    let a = sim.create_node(NodeSpec::host("a")).unwrap();
    let b = sim.create_node(NodeSpec::host("b")).unwrap();
    let c = sim.create_node(NodeSpec::host("c")).unwrap();
    for (x, y, port) in [(&a, &b, "p1"), (&b, &c, "p2")] {
        let i = sim.create_interface(x, port, InterfaceType::Data).unwrap();
        let j = sim.create_interface(y, port, InterfaceType::Data).unwrap();
        sim.create_link([&i, &j], LinkSpec { bandwidth_bps: 1_000_000_000, latency_ns: 10, up: true }).unwrap();
    }
    sim.start(None).unwrap();
    assert_eq!(sim.route(&a, &b, 8).unwrap().len(), 1);
    assert!(matches!(sim.route(&a, &c, 8), Err(Error::NoRoute(..))));
}

#[test]
fn convenience_collectives_forward_explicit_execution_options() {
    let mut api = Simulator::new();
    let id = api.create("options").unwrap();
    let sim = api.get_mut(&id).unwrap();
    let node = sim.create_node(NodeSpec::host("host")).unwrap();
    sim.start(None).unwrap();
    let options = NcclOptions {
        timeout_secs: 0,
        ..NcclOptions::default()
    };
    let ranks = vec![node];
    for result in [
        sim.all_reduce(&ranks, &vec![1], &vec![true], Reduction::Sum, &options),
        sim.broadcast(&ranks, 0, 1, true, &options),
        sim.all_gather(&ranks, &vec![1], &vec![true], &options),
        sim.reduce_scatter(&ranks, &vec![1], &vec![true], Reduction::Sum, &options),
    ] {
        assert!(matches!(result, Err(Error::Invalid(_))));
    }
}

#[test]
fn breakout_lanes_take_the_given_identifiers_and_refuse_ones_in_use() {
    let mut api = Simulator::new();
    let id = api.create("lanes").unwrap();
    let sim = api.get_mut(&id).unwrap();
    let node = sim.create_node(NodeSpec::host("host")).unwrap();
    let parent = sim.create_interface(&node, "eth9", InterfaceType::Data).unwrap();
    let taken = vec![parent.clone(), "lane-b".to_string()];
    assert!(matches!(
        sim.breakout_with_keys(&parent, 2, taken),
        Err(Error::Conflict(_))
    ));
    let repeated = vec!["lane-a".to_string(), "lane-a".to_string()];
    assert!(matches!(
        sim.breakout_with_keys(&parent, 2, repeated),
        Err(Error::Conflict(_))
    ));
    let keys = vec!["lane-a".to_string(), "lane-b".to_string()];
    assert_eq!(sim.breakout_with_keys(&parent, 2, keys.clone()).unwrap(), keys);
}
