use datacenter_simulator::api::Simulator;
use datacenter_simulator::manifest::ManifestNode;
use datacenter_simulator::model::{Resources, Role};
use datacenter_simulator::netbox::{
    self, Cable, Choice, Device, DeviceRole, Interface, Medium, NetBoxConfig, Reference, Snapshot,
    Termination,
};

fn choice(v: &str) -> Choice {
    Choice { value: v.into() }
}

fn device(id: u64, name: &str, role: &str, status: &str) -> Device {
    Device {
        id,
        name: name.into(),
        role: DeviceRole { slug: role.into() },
        status: choice(status),
        custom_fields: Vec::new(),
    }
}

fn port(id: u64, name: &str, device: u64, cable: u64, kbps: u64) -> Interface {
    Interface {
        id,
        name: name.into(),
        device: Reference { id: device },
        kind: choice("infiniband-hdr"),
        enabled: true,
        mgmt_only: false,
        speed: Some(kbps),
        cable: Some(Reference { id: cable }),
        lag: None,
        parent: None,
        bridge: None,
        duplex: None,
    }
}

fn end(id: u64) -> Termination {
    Termination {
        object_type: "dcim.interface".into(),
        object_id: id,
    }
}

fn cable(id: u64, status: &str, a: u64, b: u64) -> Cable {
    Cable {
        id,
        status: choice(status),
        a_terminations: vec![end(a)],
        b_terminations: vec![end(b)],
    }
}

/// Two GPU hosts cabled to one planned leaf switch over InfiniBand.
fn input() -> (NetBoxConfig, Snapshot) {
    let config = NetBoxConfig {
        api_url: "https://netbox.example/api/".into(),
        token_env: netbox::token_env(),
        allow_http: false,
        device_filter: vec![("site".into(), "lab".into())],
        roles: vec![("gpu".into(), Role::Host), ("leaf".into(), Role::Switch)],
        medium: Medium::Infiniband,
        planned_links_up: true,
        default_bandwidth_bps: None,
        latency_ns: netbox::latency(),
        image: netbox::image(),
        resources: Resources::standard(),
    };
    let snapshot = Snapshot {
        api_url: config.api_url.clone(),
        fetched_at: "2026-01-01T00:00:00Z".into(),
        devices: vec![
            device(1, "gpu-a", "gpu", "active"),
            device(2, "gpu-b", "gpu", "active"),
            device(3, "leaf", "leaf", "planned"),
        ],
        interfaces: vec![
            port(1, "mlx5_0/1", 1, 1, 200_000_000),
            port(2, "mlx5_0/1", 2, 2, 200_000_000),
            port(3, "port1", 3, 1, 400_000_000),
            port(4, "port2", 3, 2, 400_000_000),
        ],
        cables: vec![cable(1, "connected", 1, 3), cable(2, "planned", 2, 4)],
    };
    (config, snapshot)
}

fn node<'a>(m: &'a datacenter_simulator::manifest::Manifest, name: &str) -> &'a ManifestNode {
    &m.content.nodes.iter().find(|(n, _)| n == name).unwrap().1
}

fn label(n: &ManifestNode, key: &str) -> serde_json::Value {
    let text = &n.labels.iter().find(|(k, _)| k == key).unwrap().1;
    serde_json::from_str(text).unwrap()
}

#[test]
fn netbox_ids_survive_display_renames_and_preserve_physical_rates() {
    let (config, mut snapshot) = input();
    let before = netbox::compile(&config, &snapshot).unwrap();
    assert_eq!(before.content.nodes.len(), 3);
    assert_eq!(node(&before, "nb1").interfaces.len(), 1);
    assert_eq!(before.content.links[0].condition.bandwidth_bps, 200_000_000_000);
    assert_eq!(label(node(&before, "nb1"), "netbox.interfaces")["i1"]["name"], "mlx5_0/1");
    snapshot.devices[0].name = "任意 display name / renamed".into();
    snapshot.interfaces[0].name = "Ethernet 1/2/really-long-native-name".into();
    let after = netbox::compile(&config, &snapshot).unwrap();
    assert_eq!(before.content.links[0].endpoints, after.content.links[0].endpoints);
    assert_eq!(label(node(&after, "nb1"), "netbox.device_name"), snapshot.devices[0].name.as_str());
    Simulator::new().import(after, true).unwrap();
}

#[test]
fn intended_admin_state_controls_cables() {
    let (mut config, mut snapshot) = input();
    config.planned_links_up = false;
    assert!(!netbox::compile(&config, &snapshot).unwrap().content.links[1].condition.up);
    config.planned_links_up = true;
    snapshot.interfaces[0].enabled = false;
    let m = netbox::compile(&config, &snapshot).unwrap();
    assert!(!m.content.links[0].condition.up);
    assert!(m.content.links[1].condition.up);
    snapshot.cables[1].status.value = "decommissioning".into();
    assert!(!netbox::compile(&config, &snapshot).unwrap().content.links[1].condition.up);
}

#[test]
fn ambiguous_or_partial_cabling_never_becomes_a_shortcut() {
    let (config, snapshot) = input();
    for change in 0..6 {
        let mut s = snapshot.clone();
        match change {
            0 => s.cables[0].b_terminations[0].object_type = "dcim.frontport".into(),
            1 => s.cables[0].b_terminations[0].object_id = 999,
            2 => {
                let extra = s.cables[0].a_terminations[0].clone();
                s.cables[0].b_terminations.push(extra);
            }
            3 => s.interfaces[0].cable.as_mut().unwrap().id = 2,
            4 => s.devices[0].role.slug = "unmapped".into(),
            _ => s.interfaces[0].lag = Some(Reference { id: 42 }),
        }
        assert!(netbox::compile(&config, &s).is_err(), "case {change}");
    }
}

#[test]
fn missing_and_overflowing_speeds_require_explicit_correction() {
    let (mut config, mut s) = input();
    s.interfaces[0].speed = None;
    assert!(netbox::compile(&config, &s).is_err());
    config.default_bandwidth_bps = Some(100_000_000_000);
    assert_eq!(
        netbox::compile(&config, &s).unwrap().content.links[0].condition.bandwidth_bps,
        100_000_000_000
    );
    s.interfaces[0].speed = Some(u64::MAX);
    assert!(netbox::compile(&config, &s).is_err());
}

#[test]
fn interface_names_are_base36_identifiers_under_the_linux_limit() {
    assert_eq!(netbox::interface_name(0), "i0");
    assert_eq!(netbox::interface_name(35), "iz");
    assert_eq!(netbox::interface_name(36), "i10");
    assert_eq!(netbox::interface_name(u64::MAX), "i3w5e11264sgsf");
    assert!(netbox::interface_name(u64::MAX).len() <= 15);
}

#[test]
fn device_status_and_selection_follow_the_configured_medium() {
    assert_eq!(netbox::operating("active", false).unwrap(), true);
    assert_eq!(netbox::operating("staged", true).unwrap(), true);
    assert_eq!(netbox::operating("offline", true).unwrap(), false);
    assert!(netbox::operating("weird", true).is_err());
    let (_, s) = input();
    assert!(netbox::selected(&s.interfaces[0], Medium::Infiniband));
    assert!(!netbox::selected(&s.interfaces[0], Medium::Ethernet));
    let mut eth = s.interfaces[0].clone();
    eth.kind.value = "100gbase-x-qsfp28".into();
    assert!(netbox::selected(&eth, Medium::Ethernet));
    eth.mgmt_only = true;
    assert!(!netbox::selected(&eth, Medium::Ethernet));
}

#[test]
fn duplicate_or_zero_identifiers_are_rejected() {
    assert!(netbox::unique(&vec![1, 2, 3]).is_ok());
    assert!(netbox::unique(&vec![1, 2, 1]).is_err());
    assert!(netbox::unique(&vec![0]).is_err());
    let (config, mut s) = input();
    s.devices[1].id = 1;
    assert!(netbox::compile(&config, &s).is_err());
}

#[test]
fn compiled_labels_carry_json_text() {
    let (config, snapshot) = input();
    let m = netbox::compile(&config, &snapshot).unwrap();
    let n = node(&m, "nb3");
    assert_eq!(label(n, "netbox.device_id"), 3);
    assert_eq!(label(n, "netbox.device_name"), "leaf");
    assert_eq!(label(n, "simulator.medium"), "infiniband");
    assert_eq!(n.role, Role::Switch);
    let names: Vec<&str> = n.interfaces.iter().map(|(k, _)| k.as_str()).collect();
    assert_eq!(names, ["i3", "i4"]);
}

#[test]
fn intended_graph_becomes_native_ib_ports_and_initial_cable_state() {
    let (config, mut snapshot) = input();
    snapshot.interfaces[1].enabled = false;
    let m = netbox::compile(&config, &snapshot).unwrap();
    let mut api = Simulator::new();
    let id = api.import(m, true).unwrap();
    let plan = datacenter_simulator::infiniband::topology(api.get(&id).unwrap()).unwrap();
    assert_eq!(plan.native_nodes.len(), 3);
    assert_eq!(plan.links.iter().filter(|l| l.up).count(), 1);
    let port = |key: &str| plan.ports.iter().find(|(k, _)| k == key).map(|(_, p)| *p).unwrap();
    assert_eq!(port("nb3:i3"), 1);
    assert_eq!(port("nb3:i4"), 2);
}
