use datacenter_simulator::manifest::{
    Manifest, ManifestInterface, ManifestLink, ManifestNode, Topology,
};
use datacenter_simulator::mokka::{
    dns_checked, has_no_gpu_capacity, kube_node_checked, revision, MokkaConfig, NodeBinding,
    NodeStatus, Profile, ResourceMap,
};
use datacenter_simulator::model::{Error, LinkSpec, Role};

fn node(role: Role, labels: &[(&str, &str)]) -> ManifestNode {
    ManifestNode {
        os: "ubuntu".into(),
        cpu: 4,
        memory: 8192,
        storage: 64,
        role,
        interfaces: vec![("eth0".to_string(), ManifestInterface::default())],
        labels: labels.iter().map(|(k, v)| (k.to_string(), v.to_string())).collect(),
        user_data: None,
        meta_data: None,
        image_metadata: Vec::new(),
    }
}

fn gpu(kube: &str) -> ManifestNode {
    node(
        Role::Host,
        &[
            ("mokka.profile", "\"a100\""),
            ("mokka.gpu_count", "2"),
            ("kubernetes.node", kube),
        ],
    )
}

fn intent() -> Manifest {
    Manifest {
        format: "JSON".into(),
        name: "k8s".into(),
        ztp: None,
        content: Topology {
            nodes: vec![
                ("nb1".into(), gpu("\"simulator-worker\"")),
                ("nb2".into(), gpu("\"simulator-worker2\"")),
                ("nb3".into(), node(Role::Switch, &[])),
            ],
            links: vec![ManifestLink {
                endpoints: ["nb1:eth0".into(), "nb3:eth0".into()],
                condition: LinkSpec::default(),
            }],
            oob: false,
            enable_dhcp: false,
            services: Vec::new(),
            instructions: Vec::new(),
        },
    }
}

fn config() -> MokkaConfig {
    MokkaConfig {
        manifest: "intent.json".into(),
        upstream: "k8s-test-infra".into(),
        context: "kind-simulator".into(),
        namespace: "simulator-gpu".into(),
        image: "registry.example/nvml-mock:simulator-4a44f73b41ab".into(),
        nodes: Vec::new(),
    }
}

fn profiles() -> Vec<Profile> {
    vec![
        Profile { name: "a100".into(), devices: Some(8), system: true },
        Profile { name: "t4".into(), devices: Some(4), system: true },
    ]
}

fn status(capacity: ResourceMap, allocatable: ResourceMap) -> NodeStatus {
    NodeStatus { capacity, allocatable }
}

fn entries(items: &[(&str, Option<&str>)]) -> ResourceMap {
    ResourceMap::Entries(
        items.iter().map(|(k, v)| (k.to_string(), v.map(String::from))).collect(),
    )
}

#[test]
fn kubernetes_intent_uses_pinned_gpu_profiles_with_ib_mocks_off() {
    let mut config = config();
    let plan = config.plan(intent(), &profiles()).unwrap();
    assert_eq!(plan.releases.len(), 2);
    assert!(!plan.nccl_tested && !plan.rdma_payload_tested);
    for release in &plan.releases {
        assert_eq!(release.expected_gpus, 2);
    }
    config.nodes.push((
        "nb1".into(),
        NodeBinding {
            kubernetes_node: "simulator-worker".into(),
            profile: "t4".into(),
            gpu_count: 999,
        },
    ));
    assert!(config.plan(intent(), &profiles()).is_err());
    config.nodes[0].1.gpu_count = 1;
    let again = config.nodes[0].1.clone();
    config.nodes.push(("nb2".into(), again));
    assert!(config.plan(intent(), &profiles()).is_err());
    config.nodes.clear();
    config.namespace = "default".into();
    assert!(config.plan(intent(), &profiles()).is_err());
}

#[test]
fn gpu_capacity_fails_closed_on_wrong_types() {
    assert!(has_no_gpu_capacity(&status(entries(&[]), ResourceMap::Missing)));
    assert!(has_no_gpu_capacity(&status(
        entries(&[("nvidia.com/gpu", Some("0"))]),
        ResourceMap::Missing
    )));
    for value in [None, None, None, None, None, None, Some("1"), Some("unknown")] {
        assert!(!has_no_gpu_capacity(&status(
            entries(&[("nvidia.com/gpu", value)]),
            ResourceMap::Missing
        )));
    }
    assert!(!has_no_gpu_capacity(&status(ResourceMap::Missing, ResourceMap::Missing)));
}

#[test]
fn gpu_resources_in_either_capacity_map_fail_closed() {
    for key in [
        "nvidia.com/gpu",
        "nvidia.com/mig-1g.5gb",
        "nvidia.com/gpu.shared",
        "nvidia.com/mig-1g.5gb.shared",
    ] {
        for field in 0..2 {
            let with = |quantity: &str| {
                let set = entries(&[(key, Some(quantity))]);
                if field == 0 {
                    status(set, entries(&[]))
                } else {
                    status(entries(&[]), set)
                }
            };
            assert!(!has_no_gpu_capacity(&with("1")));
            assert!(has_no_gpu_capacity(&with("0")));
        }
    }
}

#[test]
fn plan_releases_carry_the_pinned_image_and_bindings() {
    let plan = config().plan(intent(), &profiles()).unwrap();
    assert_eq!(plan.scope, "kubernetes-gpu-contracts");
    assert_eq!(plan.upstream_revision, revision());
    assert!(!plan.image_pinned);
    let names: Vec<&str> = plan.releases.iter().map(|r| r.name.as_str()).collect();
    assert_eq!(names, ["sim-gpu-0", "sim-gpu-1"]);
    assert_eq!(plan.releases[1].kubernetes_node, "simulator-worker2");
    assert_eq!(plan.releases[0].model_node, "nb1");
    assert_eq!(plan.releases[0].repository, "registry.example/nvml-mock");
    assert_eq!(plan.releases[0].tag, "simulator-4a44f73b41ab");
    let mut pinned = config();
    let digest = format!("sha256:{}", "ab".repeat(32));
    pinned.image = format!("registry.example:5000/nvml-mock:simulator-4a44f73b41ab@{digest}");
    let plan = pinned.plan(intent(), &profiles()).unwrap();
    assert!(plan.image_pinned);
    assert_eq!(plan.releases[0].repository, "registry.example:5000/nvml-mock");
    assert_eq!(plan.releases[0].tag, format!("simulator-4a44f73b41ab@{digest}"));
}

#[test]
fn images_without_the_pinned_tag_or_a_sha256_digest_are_refused() {
    for image in [
        "registry.example/nvml-mock",
        ":simulator-4a44f73b41ab",
        "registry.example/nvml-mock:latest",
        "registry.example/nvml-mock:simulator-4a44f73b41ab@sha256:ABCD",
        "registry.example/nvml-mock:simulator-4a44f73b41ab@md5:00",
    ] {
        let mut c = config();
        c.image = image.into();
        assert!(matches!(c.plan(intent(), &profiles()), Err(Error::Invalid(_))), "{image}");
    }
}

#[test]
fn namespaces_contexts_and_labels_are_checked() {
    for ns in ["kube-system", "Upper", "-lead", ""] {
        let mut c = config();
        c.namespace = ns.into();
        assert!(c.plan(intent(), &profiles()).is_err(), "{ns}");
    }
    let mut c = config();
    c.context = "a\nb".into();
    assert!(c.plan(intent(), &profiles()).is_err());
    let mut m = intent();
    m.content.nodes[0].1.labels[1].1 = "\"two\"".into();
    assert!(config().plan(m, &profiles()).is_err());
    let mut m = intent();
    m.content.nodes[0].1.labels[0].1 = "\"missing-profile\"".into();
    assert!(config().plan(m, &profiles()).is_err());
    let mut m = intent();
    m.content.nodes[1].1.labels[2].1 = "\"simulator-worker\"".into();
    assert!(config().plan(m, &profiles()).is_err());
    let mut m = intent();
    for n in &mut m.content.nodes {
        n.1.labels.clear();
    }
    assert!(config().plan(m, &profiles()).is_err());
}

#[test]
fn switches_cannot_become_gpu_hosts() {
    let mut c = config();
    c.nodes.push((
        "nb3".into(),
        NodeBinding { kubernetes_node: "w".into(), profile: "t4".into(), gpu_count: 1 },
    ));
    assert!(c.plan(intent(), &profiles()).is_err());
    c.nodes[0].0 = "nb2".into();
    assert!(c.plan(intent(), &profiles()).is_ok());
}

#[test]
fn dns_and_kubernetes_node_names() {
    assert!(dns_checked("gpu-1"));
    assert!(!dns_checked("gpu-"));
    assert!(!dns_checked(&"a".repeat(64)));
    assert!(kube_node_checked("worker-1.cluster.local"));
    assert!(!kube_node_checked("worker..local"));
    assert!(!kube_node_checked("worker-.local"));
    assert!(!kube_node_checked("worker.-local"));
    assert!(!kube_node_checked(&format!("{}.local", "a".repeat(64))));
    assert!(kube_node_checked(&format!("{}.local", "a".repeat(63))));
    assert!(!kube_node_checked(&"a.".repeat(127)));
}
