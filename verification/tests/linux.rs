use datacenter_simulator::api::Simulator;
use datacenter_simulator::linux::{rollback_next, rollback_start, Action, Rollback};
use datacenter_simulator::model::{Error, InterfaceType, LinkSpec, NodeSpec};

/// Drives a transaction; `operation` reports whether a step (or its restoration) succeeded.
fn apply_or_restore(steps: usize, mut operation: impl FnMut(usize, bool) -> bool) -> Rollback {
    let (mut state, mut action) = rollback_start(steps);
    while let Action::Run { step, restoring } = action {
        let ok = operation(step, restoring);
        (state, action) = rollback_next(steps, state, ok);
    }
    state
}

#[test]
fn failures_at_each_mutation_restore_all_state_and_poison_on_cleanup_failure() {
    for failure in 0..3 {
        let mut state = [false; 3];
        let mut restored = Vec::new();
        let result = apply_or_restore(3, |step, restoring| {
            if restoring {
                restored.push(step);
                state[step] = false;
            } else {
                state[step] = true;
                if step == failure {
                    return false;
                }
            }
            true
        });
        assert_eq!(result, Rollback::Done { applied: false, poisoned: false });
        assert_eq!(state, [false; 3]);
        assert_eq!(restored, vec![0, 1, 2]);
    }
    let mut restored = Vec::new();
    let result = apply_or_restore(3, |step, restoring| {
        if restoring {
            restored.push(step);
        }
        step != 0
    });
    assert_eq!(result, Rollback::Done { applied: false, poisoned: true });
    assert_eq!(restored, vec![0, 1, 2]);
}

#[test]
fn every_step_applied_ends_clean_and_nothing_to_do_is_done() {
    let mut applied = Vec::new();
    let result = apply_or_restore(3, |step, restoring| {
        assert!(!restoring);
        applied.push(step);
        true
    });
    assert_eq!(result, Rollback::Done { applied: true, poisoned: false });
    assert_eq!(applied, vec![0, 1, 2]);
    assert_eq!(
        rollback_start(0),
        (Rollback::Done { applied: true, poisoned: false }, Action::Stop)
    );
}

fn pair(second_port: &str) -> (Simulator, String, String, String, String) {
    let mut api = Simulator::new();
    let id = api.create("linux").unwrap();
    let sim = api.get_mut(&id).unwrap();
    let a = sim.create_node(NodeSpec::host("a")).unwrap();
    let b = sim.create_node(NodeSpec::host("b")).unwrap();
    let x = sim.create_interface(&a, "eth0", InterfaceType::Data).unwrap();
    let y = sim.create_interface(&b, second_port, InterfaceType::Data).unwrap();
    let link = sim.create_link([&x, &y], LinkSpec::default()).unwrap();
    (api, id, link, x, y)
}

#[test]
fn linux_backend_admits_a_started_ethernet_model_and_plans_a_subnet_per_link() {
    let (mut api, id, link, x, y) = pair("eth0");
    assert!(matches!(
        api.get(&id).unwrap().linux_admission(),
        Err(Error::State(_))
    ));
    api.get_mut(&id).unwrap().start(None).unwrap();
    let sim = api.get(&id).unwrap();
    assert!(sim.linux_admission().is_ok());
    let (subnets, addresses) = sim.linux_addresses();
    assert_eq!(subnets, vec![(link, "10.64.0.0/24".to_string())]);
    assert_eq!(
        addresses,
        vec![(x, "10.64.0.2".to_string()), (y, "10.64.0.3".to_string())]
    );
}

#[test]
fn linux_backend_refuses_the_reserved_endpoint_name() {
    let (mut api, id, ..) = pair("simnccl");
    api.get_mut(&id).unwrap().start(None).unwrap();
    assert!(matches!(
        api.get(&id).unwrap().linux_admission(),
        Err(Error::Invalid(_))
    ));
}
