use datacenter_simulator::deepops::{
    address_string, collectives, validate_inventory, validate_nccl, validate_slurm, DeepOpsConfig,
    NcclDevice, NcclMeasure, NcclReport, NcclRow, SlurmNode, SlurmReport,
};
use datacenter_simulator::manifest::{
    Manifest, ManifestInterface, ManifestLink, ManifestNode, Topology,
};
use datacenter_simulator::model::{Error, LinkSpec, Role};

fn config() -> DeepOpsConfig {
    DeepOpsConfig {
        repository: "deepops".into(),
        manifest: "topology.json".into(),
        image: "guest.qcow2".into(),
        image_sha256: "0123456789abcdef0123456789abcdef0123456789abcdef0123456789abcdef".into(),
        state_dir: "state".into(),
        ansible_bin: "ansible".into(),
        provisioner: "provisioner".into(),
        controller: "controller".into(),
        compute: vec!["gpu1".into(), "gpu2".into()],
        vfio: vec![("gpu1".into(), vec!["0000:41:00.0".into()])],
        timeout_secs: 7200,
        boot_timeout_secs: 600,
    }
}

fn host(interfaces: &[&str], role: Role) -> ManifestNode {
    ManifestNode {
        os: "ubuntu".into(),
        cpu: 4,
        memory: 8192,
        storage: 64,
        role,
        interfaces: interfaces
            .iter()
            .map(|n| (n.to_string(), ManifestInterface::default()))
            .collect(),
        labels: Vec::new(),
        user_data: None,
        meta_data: None,
        image_metadata: Vec::new(),
    }
}

fn topology() -> Manifest {
    let guests = ["provisioner", "controller", "gpu1", "gpu2"];
    let mut nodes = vec![(
        "switch".to_string(),
        host(&["swp0", "swp1", "swp2", "swp3"], Role::Switch),
    )];
    let mut links = Vec::new();
    for (i, name) in guests.iter().enumerate() {
        nodes.push((name.to_string(), host(&["eth0"], Role::Host)));
        links.push(ManifestLink {
            endpoints: [format!("{name}:eth0"), format!("switch:swp{i}")],
            condition: LinkSpec::default(),
        });
    }
    Manifest {
        format: "JSON".into(),
        name: "deepops".into(),
        ztp: None,
        content: Topology {
            nodes,
            links,
            oob: false,
            enable_dhcp: false,
            services: Vec::new(),
            instructions: Vec::new(),
        },
    }
}

fn text(x: &str) -> Option<String> {
    Some(x.to_string())
}

fn measure(nwrong_null: bool) -> NcclMeasure {
    NcclMeasure {
        present: true,
        nwrong_zero: !nwrong_null,
        nwrong_null,
        time_ok: true,
    }
}

fn report_for(collective: &str) -> NcclReport {
    let reduction = ["all_reduce", "reduce", "reduce_scatter"].contains(&collective);
    let rooted = ["reduce", "broadcast", "scatter", "gather"].contains(&collective);
    let ops = if reduction {
        vec!["sum", "prod", "min", "max", "avg", "mulsum"]
    } else if collective == "hypercube" {
        vec![""]
    } else if collective == "sendrecv" {
        vec!["sum"]
    } else {
        vec!["none"]
    };
    let roots: Vec<i64> = if rooted { vec![0, 1] } else { vec![-1] };
    let unvalidated = ["alltoall", "alltoallv", "sendrecv"].contains(&collective);
    let mut rows = Vec::new();
    for size in [
        256u64, 512, 1024, 2048, 4096, 8192, 16384, 32768, 65536, 131072, 262144, 524288, 1048576,
    ] {
        for op in &ops {
            for root in &roots {
                rows.push(NcclRow {
                    redop: text(op),
                    root: Some(root.to_string()),
                    size,
                    out_of_place: measure(false),
                    in_place: measure(unvalidated),
                });
            }
        }
    }
    let mut args = vec![format!("/opt/simulator/nccl-tests/build/{collective}_perf")];
    args.extend(
        "-g 1 -t 1 -b 256 -e 1M -f 2 -n 5 -w 1 -c 1 -d double -T 60"
            .split_whitespace()
            .map(String::from),
    );
    if reduction {
        args.extend(["-o", "all"].map(String::from));
    }
    if rooted {
        args.extend(["-r", "-1"].map(String::from));
    }
    args.extend(["-J".into(), format!("/var/tmp/simulator-nccl/{collective}.json")]);
    let env = [
        "NCCL_NET=Socket",
        "NCCL_NET_PLUGIN=none",
        "NCCL_SOCKET_IFNAME==simnccl",
        "NCCL_IB_DISABLE=1",
        "NCCL_P2P_DISABLE=1",
        "NCCL_SHM_DISABLE=1",
        "OMPI_MCA_pml=ob1",
        "OMPI_MCA_btl=self,tcp",
        "OMPI_MCA_btl_tcp_if_include=simnccl",
        "OMPI_MCA_oob_tcp_if_include=simnccl",
    ];
    NcclReport {
        version: Some(4),
        nccl_version: Some(23102),
        validation: 1,
        ngpus: Some(1),
        nthreads: Some(1),
        oob_count: Some(0),
        oob_okay: text("true"),
        end_time: text("2026-09-15T00:00:00"),
        args: Some(args.into_iter().map(Some).collect()),
        devices: Some(vec![
            NcclDevice { rank: Some(0), hostname: text("gpu1"), device_info: text("NVIDIA GPU") },
            NcclDevice { rank: Some(1), hostname: text("gpu2"), device_info: text("NVIDIA GPU") },
        ]),
        env: Some(env.iter().map(|e| text(e)).collect()),
        results: Some(rows),
        errors: Some(vec![text("")]),
    }
}

fn report() -> NcclReport {
    report_for("all_reduce")
}

fn slurm() -> SlurmReport {
    SlurmReport {
        ok: true,
        gpu_job_ran: true,
        gpu_job_ok: true,
        nodes_unavailable: Some(0),
        gpus_configured: 2,
        nodes: Some(vec![
            SlurmNode { name: text("gpu1"), gpus_configured: 1 },
            SlurmNode { name: text("gpu2"), gpus_configured: 1 },
        ]),
    }
}

#[test]
fn inventory_contains_only_isolated_guests() {
    let (_, plan) = config().plan(topology()).unwrap();
    assert_eq!(plan.guests.len(), 3);
    assert_eq!(address_string(plan.guests[0].address), "10.253.0.1");
    let mut hosts: Vec<(String, Option<String>)> = plan
        .guests
        .iter()
        .map(|g| (g.name.clone(), Some(address_string(g.address))))
        .collect();
    validate_inventory(&Some(hosts.clone()), &plan.guests).unwrap();
    hosts.push(("host-machine".into(), text("127.0.0.1")));
    assert!(validate_inventory(&Some(hosts.clone()), &plan.guests).is_err());
    hosts.pop();
    let gpu1 = hosts.iter_mut().find(|(n, _)| n == "gpu1").unwrap();
    gpu1.1 = text("10.0.2.15");
    assert!(validate_inventory(&Some(hosts), &plan.guests).is_err());
}

#[test]
fn refuses_device_aliases_and_unsupported_hypercube_size() {
    let mut c = config();
    c.vfio.push(("gpu2".into(), vec!["0000:41:00.0".into()]));
    assert!(c.plan(topology()).is_err());
    let mut c = config();
    c.compute.push("gpu3".into());
    assert!(c.plan(topology()).is_err());
    let mut c = config();
    c.controller = "gpu1".into();
    assert!(c.plan(topology()).is_err());
}

#[test]
fn upstream_nccl_checked_multihost_report_is_accepted() {
    validate_nccl(&report(), "all_reduce", &config().compute).unwrap();
}

#[test]
fn nccl_rejects_skipped_empty_and_corrupt_correctness_reports() {
    let compute = config().compute;
    let edits: Vec<(&str, fn(&mut NcclReport))> = vec![
        ("/config/validation", |r| r.validation = 0),
        ("/results", |r| r.results = Some(Vec::new())),
        ("/results/0/in_place/nwrong", |r| {
            r.results.as_mut().unwrap()[0].in_place.nwrong_zero = false
        }),
        ("/results/0/out_of_place/nwrong", |r| {
            let m = &mut r.results.as_mut().unwrap()[0].out_of_place;
            m.nwrong_zero = false;
            m.nwrong_null = true;
        }),
        ("/out_of_bounds/okay", |r| r.oob_okay = text("false")),
        ("/end_time", |r| r.end_time = None),
        ("/nccl_version", |r| r.nccl_version = Some(12345)),
        ("/errors", |r| r.errors = Some(vec![text("unhandled CUDA error")])),
    ];
    for (pointer, edit) in edits {
        let mut r = report();
        edit(&mut r);
        assert!(
            validate_nccl(&r, "all_reduce", &compute).is_err(),
            "accepted {pointer}"
        );
    }
}

#[test]
fn nccl_rejects_single_host_and_fabric_bypass() {
    let compute = config().compute;
    let mut r = report();
    r.devices.as_mut().unwrap()[1].hostname = text("gpu1");
    assert!(validate_nccl(&r, "all_reduce", &compute).is_err());
    let mut r = report();
    r.env.as_mut().unwrap()[2] = text("NCCL_SOCKET_IFNAME=management0");
    assert!(validate_nccl(&r, "all_reduce", &compute).is_err());
    let mut r = report();
    r.devices.as_mut().unwrap()[1].rank = Some(0);
    assert!(validate_nccl(&r, "all_reduce", &compute).is_err());
}

#[test]
fn slurm_requires_a_real_gpu_job_and_every_compute_node() {
    let compute = config().compute;
    let mut r = slurm();
    validate_slurm(&r, &compute).unwrap();
    r.gpu_job_ran = false;
    assert!(validate_slurm(&r, &compute).is_err());
    r.gpu_job_ran = true;
    r.nodes.as_mut().unwrap()[1].name = text("another-cluster");
    assert!(validate_slurm(&r, &compute).is_err());
}

#[test]
fn root_and_reduction_coverage_cannot_be_silently_skipped() {
    let compute = config().compute;
    let mut r = report();
    r.results.as_mut().unwrap().pop();
    assert!(validate_nccl(&r, "all_reduce", &compute).is_err());
    for collective in collectives() {
        let r = report_for(&collective);
        validate_nccl(&r, &collective, &compute).unwrap();
        let rows = r.results.as_ref().unwrap().len();
        for i in 0..rows {
            let mut missing = r.clone();
            missing.results.as_mut().unwrap().remove(i);
            assert!(validate_nccl(&missing, &collective, &compute).is_err());
        }
    }
    let mut duplicate = report_for("reduce");
    let row = duplicate.results.as_ref().unwrap()[0].clone();
    duplicate.results.as_mut().unwrap().push(row);
    assert!(validate_nccl(&duplicate, "reduce", &compute).is_err());
}

#[test]
fn nccl_failures_are_state_errors() {
    let mut r = report();
    r.validation = 0;
    assert!(matches!(
        validate_nccl(&r, "all_reduce", &config().compute),
        Err(Error::State(_))
    ));
    assert!(validate_nccl(&report(), "not_a_collective", &config().compute).is_err());
    assert!(validate_nccl(&report(), "all_gather", &config().compute).is_err());
}

#[test]
fn unvalidated_in_place_counts_only_where_the_collective_has_none() {
    let compute = config().compute;
    let mut r = report();
    for row in r.results.as_mut().unwrap() {
        row.in_place = measure(true);
    }
    assert!(validate_nccl(&r, "all_reduce", &compute).is_err());
    let mut r = report_for("alltoall");
    r.results.as_mut().unwrap()[0].out_of_place.present = false;
    assert!(validate_nccl(&r, "alltoall", &compute).is_err());
}

#[test]
fn rooted_collectives_need_every_rank_as_root() {
    let compute = config().compute;
    let mut r = report_for("broadcast");
    for row in r.results.as_mut().unwrap() {
        row.root = text(" 0 ");
    }
    assert!(validate_nccl(&r, "broadcast", &compute).is_err());
    let mut r = report_for("broadcast");
    r.results.as_mut().unwrap()[0].root = text("+7");
    assert!(validate_nccl(&r, "broadcast", &compute).is_err());
}

#[test]
fn slurm_rejects_unavailable_nodes_and_missing_gpus() {
    let compute = config().compute;
    let mut r = slurm();
    r.nodes_unavailable = Some(1);
    assert!(matches!(validate_slurm(&r, &compute), Err(Error::State(_))));
    let mut r = slurm();
    r.nodes.as_mut().unwrap()[0].gpus_configured = 0;
    assert!(validate_slurm(&r, &compute).is_err());
    let mut r = slurm();
    r.nodes = None;
    assert!(validate_slurm(&r, &compute).is_err());
}

#[test]
fn plan_orders_guests_and_addresses() {
    let (_, plan) = config().plan(topology()).unwrap();
    let names: Vec<&str> = plan.guests.iter().map(|g| g.name.as_str()).collect();
    assert_eq!(names, ["controller", "gpu1", "gpu2"]);
    let addresses: Vec<String> = plan.guests.iter().map(|g| address_string(g.address)).collect();
    assert_eq!(addresses, ["10.253.0.1", "10.253.0.2", "10.253.0.3"]);
    assert_eq!(plan.guests[1].vfio, vec!["0000:41:00.0".to_string()]);
    assert!(plan.guests[2].vfio.is_empty());
    assert_eq!(plan.guests[0].cpus, 4);
    assert_eq!(plan.inventory.login, "controller");
    assert_eq!(plan.inventory.nodes.len(), 2);
    assert_eq!(plan.deepops_revision, "dc80499ea34b3f36563ed039421076de15071517");
}

#[test]
fn plan_refuses_a_bad_image_digest_and_an_unreachable_guest() {
    let mut c = config();
    c.image_sha256 = "xyz".into();
    assert!(matches!(c.plan(topology()), Err(Error::Invalid(_))));
    let mut m = topology();
    m.content.links.pop();
    assert!(config().plan(m).is_err());
}

#[test]
fn nccl_report_requires_the_requested_test_matrix() {
    let rows: Vec<NcclRow> = ["sum", "prod", "min", "max", "avg", "mulsum"]
        .iter()
        .enumerate()
        .map(|(i, op)| NcclRow {
            redop: text(op),
            root: Some(format!("{}", i % 2)),
            size: 256,
            out_of_place: measure(false),
            in_place: NcclMeasure { present: false, nwrong_zero: false, nwrong_null: true, time_ok: false },
        })
        .collect();
    let env = [
        "NCCL_NET=Socket",
        "NCCL_NET_PLUGIN=none",
        "NCCL_SOCKET_IFNAME==simnccl",
        "NCCL_IB_DISABLE=1",
        "NCCL_P2P_DISABLE=1",
        "NCCL_SHM_DISABLE=1",
        "OMPI_MCA_pml=ob1",
        "OMPI_MCA_btl=self,tcp",
        "OMPI_MCA_btl_tcp_if_include=simnccl",
        "OMPI_MCA_oob_tcp_if_include=simnccl",
    ];
    let report = NcclReport {
        version: Some(4),
        nccl_version: Some(23102),
        validation: 1,
        ngpus: Some(1),
        nthreads: Some(1),
        oob_count: Some(0),
        oob_okay: text("true"),
        end_time: text("2026-09-23T00:00:00"),
        args: Some(vec![text("/opt/simulator/nccl-tests/build/reduce_perf"), text("-c"), text("1")]),
        devices: Some(vec![
            NcclDevice { rank: Some(0), hostname: text("gpu1"), device_info: text("fixture") },
            NcclDevice { rank: Some(1), hostname: text("gpu2"), device_info: text("fixture") },
        ]),
        env: Some(env.iter().map(|e| text(e)).collect()),
        results: Some(rows),
        errors: Some(vec![text("")]),
    };
    let result = validate_nccl(&report, "reduce", &vec!["gpu1".into(), "gpu2".into()]);
    assert!(result.is_err(), "truncated requested coverage should be rejected");
}

#[test]
fn every_rooted_collective_report_of_the_full_matrix_is_accepted() {
    for c in ["reduce", "broadcast"] {
        validate_nccl(&report_for(c), c, &config().compute).unwrap();
    }
}
