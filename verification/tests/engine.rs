use tbd_iac::decl::Decl;
use tbd_iac::exec::{execute_plan, NodeStatus, Outcome, Outcomes};
use tbd_iac::graph::{build, GraphError};
use tbd_iac::plan::{destroy_plan, diff, substitute_refs, ActionKind};
use tbd_iac::props::{PropLeaf, Props};
use tbd_iac::store::StateStore;

fn s(x: &str) -> String {
    x.to_string()
}

fn props_cidr(v: &str) -> Props {
    let mut p = Props::empty();
    p.put(s("cidr"), PropLeaf::Str(s(v)));
    p
}

fn decl(id: &str, rtype: &str, props: Props, deps: &[&str]) -> Decl {
    Decl {
        id: s(id),
        rtype: s(rtype),
        provider: s("test"),
        props,
        depends_on: deps.iter().map(|d| s(d)).collect(),
    }
}

fn ok_outcomes(pairs: &[(&str, &Props)]) -> Outcomes {
    Outcomes {
        entries: pairs
            .iter()
            .map(|(id, p)| (s(id), Outcome::Completed((*p).clone())))
            .collect(),
    }
}

#[test]
fn test_duplicate_id_rejected() {
    let decls = vec![
        decl("a", "vpc", props_cidr("10.0.0.0/16"), &[]),
        decl("a", "vpc", props_cidr("10.0.1.0/16"), &[]),
    ];
    match build(decls) {
        Err(GraphError::DuplicateId { id }) => assert_eq!(id, "a"),
        _ => panic!("expected DuplicateId"),
    }
}

#[test]
fn test_unknown_reference_rejected() {
    let decls = vec![decl("a", "vpc", props_cidr("10.0.0.0/16"), &["missing"])];
    match build(decls) {
        Err(GraphError::UnknownReference { from, to }) => {
            assert_eq!(from, "a");
            assert_eq!(to, "missing");
        },
        _ => panic!("expected UnknownReference"),
    }
}

#[test]
fn test_cycle_rejected_names_both_ids() {
    let decls = vec![
        decl("a", "vpc", props_cidr("10.0.0.0/16"), &["b"]),
        decl("b", "vpc", props_cidr("10.0.1.0/16"), &["a"]),
    ];
    match build(decls) {
        Err(GraphError::CycleDetected { ids }) => {
            assert!(ids.contains(&s("a")));
            assert!(ids.contains(&s("b")));
        },
        _ => panic!("expected CycleDetected"),
    }
}

#[test]
fn test_implicit_reference_makes_edge() {
    let mut net_props = Props::empty();
    net_props.put(s("parent"), PropLeaf::Str(s("${vpc}")));
    let decls = vec![
        decl("vpc", "vpc", props_cidr("10.0.0.0/16"), &[]),
        decl("subnet", "subnet", net_props, &[]),
    ];
    let g = build(decls).expect("graph should build");
    // Node 1 (subnet) depends on node 0 (vpc) through the property value.
    assert!(g.deps[1].contains(&0));
}

#[test]
fn test_create_plan_orders_dependencies() {
    let decls = vec![
        decl("vpc", "vpc", props_cidr("10.0.0.0/16"), &[]),
        decl("subnet", "subnet", props_cidr("10.0.1.0/24"), &["vpc"]),
    ];
    let g = build(decls).expect("graph should build");
    let store = StateStore::new();
    let plan = diff(&g, &store.snapshot(), s("dev"), 0);
    assert_eq!(plan.changes.len(), 2);
    assert_eq!(plan.changes[0].id, "vpc");
    assert_eq!(plan.changes[0].action, ActionKind::Create);
    assert_eq!(plan.changes[1].id, "subnet");
    assert_eq!(plan.changes[1].action, ActionKind::Create);
    assert!(plan.noop_ids.is_empty());
}

#[test]
fn test_apply_then_replan_is_all_noop() {
    let vpc_props = props_cidr("10.0.0.0/16");
    let subnet_props = props_cidr("10.0.1.0/24");
    let decls = vec![
        decl("vpc", "vpc", vpc_props.clone(), &[]),
        decl("subnet", "subnet", subnet_props.clone(), &["vpc"]),
    ];
    let g = build(decls).expect("graph should build");
    let mut store = StateStore::new();
    let plan = diff(&g, &store.snapshot(), s("dev"), 0);
    let outcomes = ok_outcomes(&[("vpc", &vpc_props), ("subnet", &subnet_props)]);
    let report = execute_plan(&plan, &mut store, &outcomes, None).expect("plan is fresh");
    assert!(report.results.iter().all(|r| r.status == NodeStatus::Succeeded));
    assert_eq!(store.entries.len(), 2);
    let plan2 = diff(&g, &store.snapshot(), s("dev"), 1);
    assert!(plan2.changes.is_empty());
    assert_eq!(plan2.noop_ids.len(), 2);
    assert!(plan2.noop_ids.contains(&s("vpc")));
    assert!(plan2.noop_ids.contains(&s("subnet")));
}

#[test]
fn test_update_plan_reports_value_diff() {
    let vpc_props = props_cidr("10.0.0.0/16");
    let subnet_props = props_cidr("10.0.1.0/24");
    let decls = vec![
        decl("vpc", "vpc", vpc_props.clone(), &[]),
        decl("subnet", "subnet", subnet_props.clone(), &["vpc"]),
    ];
    let g = build(decls).expect("graph should build");
    let mut store = StateStore::new();
    let plan = diff(&g, &store.snapshot(), s("dev"), 0);
    let outcomes = ok_outcomes(&[("vpc", &vpc_props), ("subnet", &subnet_props)]);
    execute_plan(&plan, &mut store, &outcomes, None).expect("plan is fresh");

    let decls2 = vec![
        decl("vpc", "vpc", props_cidr("10.0.0.0/16"), &[]),
        decl("subnet", "subnet", props_cidr("10.0.2.0/24"), &["vpc"]),
    ];
    let g2 = build(decls2).expect("graph should build");
    let plan2 = diff(&g2, &store.snapshot(), s("dev"), 1);
    assert_eq!(plan2.changes.len(), 1);
    let chg = &plan2.changes[0];
    assert_eq!(chg.id, "subnet");
    assert_eq!(chg.action, ActionKind::Update);
    assert_eq!(chg.diff.len(), 1);
    assert_eq!(chg.diff[0].path, "cidr");
    match (&chg.diff[0].old_value, &chg.diff[0].new_value) {
        (Some(PropLeaf::Str(old)), Some(PropLeaf::Str(new))) => {
            assert_eq!(old, "10.0.1.0/24");
            assert_eq!(new, "10.0.2.0/24");
        },
        _ => panic!("expected string old and new values"),
    }
    assert!(plan2.noop_ids.contains(&s("vpc")));
}

#[test]
fn test_partial_failure_is_contained() {
    let px = props_cidr("10.0.0.0/16");
    let py = props_cidr("10.0.1.0/24");
    let pz = props_cidr("10.0.2.0/24");
    let decls = vec![
        decl("x", "vpc", px.clone(), &[]),
        decl("y", "subnet", py.clone(), &["x"]),
        decl("z", "vpc", pz.clone(), &[]),
    ];
    let g = build(decls).expect("graph should build");
    let mut store = StateStore::new();
    let plan = diff(&g, &store.snapshot(), s("dev"), 0);
    let outcomes = Outcomes {
        entries: vec![
            (s("x"), Outcome::Faulted(s("provider exploded"))),
            (s("y"), Outcome::Completed(py.clone())),
            (s("z"), Outcome::Completed(pz.clone())),
        ],
    };
    let report = execute_plan(&plan, &mut store, &outcomes, None).expect("plan is fresh");
    let status_of = |id: &str| {
        report
            .results
            .iter()
            .find(|r| r.id == id)
            .expect("every change has a result")
            .status
    };
    assert_eq!(status_of("x"), NodeStatus::Failed);
    assert_eq!(status_of("y"), NodeStatus::Skipped);
    assert_eq!(status_of("z"), NodeStatus::Succeeded);
    // Only z reached the store.
    assert_eq!(store.entries.len(), 1);
    assert_eq!(store.entries[0].id, "z");
}

#[test]
fn test_destroy_deletes_dependents_first() {
    let pa = props_cidr("10.0.0.0/16");
    let pb = props_cidr("10.0.1.0/24");
    let decls = vec![
        decl("a", "vpc", pa.clone(), &[]),
        decl("b", "subnet", pb.clone(), &["a"]),
    ];
    let g = build(decls).expect("graph should build");
    let mut store = StateStore::new();
    let plan = diff(&g, &store.snapshot(), s("dev"), 0);
    let outcomes = ok_outcomes(&[("a", &pa), ("b", &pb)]);
    execute_plan(&plan, &mut store, &outcomes, None).expect("plan is fresh");

    let dplan = destroy_plan(&store.snapshot(), s("dev"), 1);
    assert_eq!(dplan.changes.len(), 2);
    assert_eq!(dplan.changes[0].id, "b");
    assert_eq!(dplan.changes[0].action, ActionKind::Delete);
    assert_eq!(dplan.changes[1].id, "a");
    assert_eq!(dplan.changes[1].action, ActionKind::Delete);

    let del_outcomes = Outcomes {
        entries: vec![
            (s("a"), Outcome::Completed(Props::empty())),
            (s("b"), Outcome::Completed(Props::empty())),
        ],
    };
    let report = execute_plan(&dplan, &mut store, &del_outcomes, None).expect("plan is fresh");
    assert!(report.results.iter().all(|r| r.status == NodeStatus::Succeeded));
    assert!(store.entries.is_empty());
}

#[test]
fn test_removed_declaration_becomes_delete() {
    let pa = props_cidr("10.0.0.0/16");
    let pb = props_cidr("10.0.1.0/24");
    let decls = vec![
        decl("a", "vpc", pa.clone(), &[]),
        decl("b", "subnet", pb.clone(), &["a"]),
    ];
    let g = build(decls).expect("graph should build");
    let mut store = StateStore::new();
    let plan = diff(&g, &store.snapshot(), s("dev"), 0);
    let outcomes = ok_outcomes(&[("a", &pa), ("b", &pb)]);
    execute_plan(&plan, &mut store, &outcomes, None).expect("plan is fresh");

    // b is no longer declared: it must be deleted, after the no-op a.
    let decls2 = vec![decl("a", "vpc", props_cidr("10.0.0.0/16"), &[])];
    let g2 = build(decls2).expect("graph should build");
    let plan2 = diff(&g2, &store.snapshot(), s("dev"), 1);
    assert_eq!(plan2.changes.len(), 1);
    assert_eq!(plan2.changes[0].id, "b");
    assert_eq!(plan2.changes[0].action, ActionKind::Delete);
    assert!(plan2.noop_ids.contains(&s("a")));
}

#[test]
fn test_stale_plan_is_refused() {
    let pa = props_cidr("10.0.0.0/16");
    let decls = vec![decl("a", "vpc", pa.clone(), &[])];
    let g = build(decls).expect("graph should build");
    let mut store = StateStore::new();
    let plan = diff(&g, &store.snapshot(), s("dev"), 0);
    // The store moves on before the plan is applied.
    store
        .commit_put(s("other"), s("test"), s("vpc"), props_cidr("10.9.0.0/16"), None)
        .expect("fresh id commits");
    let outcomes = ok_outcomes(&[("a", &pa)]);
    assert!(execute_plan(&plan, &mut store, &outcomes, None).is_err());
}

#[test]
fn test_cancellation_budget_stops_dispatch() {
    let pa = props_cidr("10.0.0.0/16");
    let pb = props_cidr("10.0.1.0/16");
    let decls = vec![
        decl("a", "vpc", pa.clone(), &[]),
        decl("b", "vpc", pb.clone(), &[]),
    ];
    let g = build(decls).expect("graph should build");
    let mut store = StateStore::new();
    let plan = diff(&g, &store.snapshot(), s("dev"), 0);
    let outcomes = ok_outcomes(&[("a", &pa), ("b", &pb)]);
    let report = execute_plan(&plan, &mut store, &outcomes, Some(1)).expect("plan is fresh");
    assert_eq!(report.results[0].status, NodeStatus::Succeeded);
    assert_eq!(report.results[1].status, NodeStatus::Cancelled);
}

#[test]
fn test_version_conflict_fails_change() {
    let pa = props_cidr("10.0.0.0/16");
    let decls = vec![decl("a", "vpc", pa.clone(), &[])];
    let g = build(decls).expect("graph should build");
    let mut store = StateStore::new();
    // a already exists, so the Create's expectation of absence fails,
    // while the fingerprint is taken from this same snapshot.
    store
        .commit_put(s("a"), s("test"), s("vpc"), props_cidr("10.8.0.0/16"), None)
        .expect("fresh id commits");
    let plan = diff(&g, &store.snapshot(), s("dev"), 0);
    assert_eq!(plan.changes[0].action, ActionKind::Update);
    assert_eq!(plan.changes[0].expected_version, Some(1));
}

#[test]
fn test_reference_substitution_uses_recorded_output() {
    let mut store = StateStore::new();
    let mut vpc_out = Props::empty();
    vpc_out.put(s("id"), PropLeaf::Str(s("vpc-123")));
    store
        .commit_put(s("vpc"), s("test"), s("vpc"), vpc_out, None)
        .expect("fresh id commits");

    let mut p = Props::empty();
    p.put(s("parent"), PropLeaf::Str(s("${vpc}")));
    p.put(s("name"), PropLeaf::Str(s("net-a")));
    p.put(s("dangling"), PropLeaf::Str(s("${unknown}")));
    let r = substitute_refs(&p, &store.snapshot());
    match r.get(&s("parent")) {
        Some(PropLeaf::Str(v)) => assert_eq!(v, "vpc-123"),
        _ => panic!("expected the recorded id output"),
    }
    match r.get(&s("name")) {
        Some(PropLeaf::Str(v)) => assert_eq!(v, "net-a"),
        _ => panic!("expected the value untouched"),
    }
    match r.get(&s("dangling")) {
        Some(PropLeaf::Str(v)) => assert_eq!(v, "${unknown}"),
        _ => panic!("expected an unrecorded reference untouched"),
    }
}
