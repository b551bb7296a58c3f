use hasty::engine::{Engine, EngineError};
use hasty::package_json::PackageJSON;
use hasty::{CommandConfig, Config, DepKind, Dependency, ScriptStatus};

fn cc(command: &str, deps: Vec<Dependency>) -> CommandConfig {
    CommandConfig {
        command: String::from(command),
        dependencies: if deps.is_empty() { None } else { Some(deps) },
        files: None,
        output: None,
    }
}

fn same(name: &str) -> Dependency {
    Dependency { kind: DepKind::Same, name: String::from(name) }
}

fn topo(name: &str) -> Dependency {
    Dependency { kind: DepKind::Topological, name: String::from(name) }
}

fn pkg(name: &str, dir: &str, scripts: Vec<&str>, deps: Vec<&str>) -> PackageJSON {
    PackageJSON {
        name: String::from(name),
        version: None,
        scripts: Some(
            scripts.iter().map(|s| (String::from(*s), String::from(*s))).collect(),
        ),
        dependencies: if deps.is_empty() {
            None
        } else {
            Some(deps.iter().map(|d| (String::from(*d), String::from("*"))).collect())
        },
        dev_dependencies: None,
        peer_dependencies: None,
        optional_dependencies: None,
        workspaces: None,
        private: None,
        dir: Some(String::from(dir)),
    }
}

fn config(entries: Vec<(&str, CommandConfig)>) -> Config {
    Config {
        pipeline: entries.into_iter().map(|(n, c)| (String::from(n), c)).collect(),
    }
}

/// Runs the whole build pipeline; panics on a build error.
fn build(engine: &mut Engine, tasks: Vec<&str>) {
    let tasks: Vec<String> = tasks.into_iter().map(String::from).collect();
    engine.seed_root_scripts(&tasks).expect("seeding failed");
    engine.build_package_graph().expect("package graph failed");
    engine.resolve_workspace_scripts();
    engine.add_topo_task_deps();
    engine.add_deps_to_graph().expect("task graph failed");
}

fn node_names(engine: &Engine) -> Vec<String> {
    engine.task_graph.nodes.clone()
}

#[test]
fn single_package_single_task() {
    // Pipeline {"build": {command: "build"}}, one package, no dependencies:
    // the task graph has exactly one node `root#build`, and the runner is
    // invoked once, for `build`.
    let cfg = config(vec![("build", cc("build", vec![]))]);
    let wss = vec![pkg("root", "/ws/root", vec!["build"], vec![])];
    let mut engine = Engine::new(cfg, String::from("/ws"), "build", wss);
    build(&mut engine, vec!["build"]);
    assert_eq!(node_names(&engine), vec![String::from("root#build")]);
    let report = engine.execute(false);
    assert_eq!(report.launch_order, vec![String::from("root#build")]);
    assert_eq!(report.invocations.len(), 1);
    assert_eq!(report.invocations[0].command, "build");
    assert_eq!(report.invocations[0].dir, "/ws/root");
}

#[test]
fn same_package_dependency_runs_first() {
    // Pipeline build -> clean: the edge `root#clean -> root#build` exists
    // and clean is invoked before build.
    let cfg = config(vec![
        ("build", cc("build", vec![same("clean")])),
        ("clean", cc("clean", vec![])),
    ]);
    let wss = vec![pkg("root", "/ws/root", vec!["build", "clean"], vec![])];
    let mut engine = Engine::new(cfg, String::from("/ws"), "build", wss);
    build(&mut engine, vec!["build"]);
    let preds = engine.predecessors_of("root#build");
    assert_eq!(preds, vec![String::from("root#clean")]);
    let report = engine.execute(false);
    let order = report.launch_order;
    let clean_at = order.iter().position(|s| s == "root#clean").unwrap();
    let build_at = order.iter().position(|s| s == "root#build").unwrap();
    assert!(clean_at < build_at);
    let inv_names: Vec<String> =
        report.invocations.iter().map(|i| i.script_id.clone()).collect();
    assert_eq!(inv_names, order);
}

#[test]
fn topological_dependency_crosses_packages() {
    // A depends on B; both define build; pipeline build has ["^build"]:
    // the resulting edge is B#build -> A#build.
    let cfg = config(vec![("build", cc("build", vec![topo("build")]))]);
    let wss = vec![
        pkg("A", "/ws/a", vec!["build"], vec!["B"]),
        pkg("B", "/ws/b", vec!["build"], vec![]),
    ];
    let mut engine = Engine::new(cfg, String::from("/ws"), "build", wss);
    build(&mut engine, vec!["build"]);
    let preds = engine.predecessors_of("A#build");
    assert_eq!(preds, vec![String::from("B#build")]);
    assert_eq!(engine.predecessors_of("B#build").len(), 0);
    let report = engine.execute(false);
    let order = report.launch_order;
    let b_at = order.iter().position(|s| s == "B#build").unwrap();
    let a_at = order.iter().position(|s| s == "A#build").unwrap();
    assert!(b_at < a_at);
}

#[test]
fn topological_dependency_without_upstream_definition_adds_no_edge() {
    // A depends on B, but B does not define `build`: no edge is added.
    let cfg = config(vec![("build", cc("build", vec![topo("build")]))]);
    let wss = vec![
        pkg("A", "/ws/a", vec!["build"], vec!["B"]),
        pkg("B", "/ws/b", vec!["lint"], vec![]),
    ];
    let mut engine = Engine::new(cfg, String::from("/ws"), "build", wss);
    build(&mut engine, vec!["build"]);
    assert_eq!(engine.predecessors_of("A#build").len(), 0);
    assert_eq!(engine.task_graph.edges.len(), 0);
}

#[test]
fn missing_dependency_is_a_configuration_error() {
    // A dependency name absent from the pipeline aborts before scheduling.
    let cfg = config(vec![("build", cc("build", vec![same("missing")]))]);
    let wss = vec![pkg("root", "/ws/root", vec!["build"], vec![])];
    let mut engine = Engine::new(cfg, String::from("/ws"), "build", wss);
    let tasks = vec![String::from("build")];
    match engine.seed_root_scripts(&tasks) {
        Err(EngineError::MissingDependency { name }) => assert_eq!(name, "missing"),
        other => panic!("expected a missing-dependency error, got {:?}", other),
    }
}

#[test]
fn task_cycle_is_a_graph_error() {
    // a -> b -> a in the pipeline: edge insertion reports the cycle and the
    // run never reaches execution.
    let cfg = config(vec![
        ("a", cc("a", vec![same("b")])),
        ("b", cc("b", vec![same("a")])),
    ]);
    let wss = vec![pkg("root", "/ws/root", vec!["a", "b"], vec![])];
    let mut engine = Engine::new(cfg, String::from("/ws"), "a", wss);
    let tasks = vec![String::from("a")];
    engine.seed_root_scripts(&tasks).expect("seeding failed");
    engine.build_package_graph().expect("package graph failed");
    engine.resolve_workspace_scripts();
    engine.add_topo_task_deps();
    match engine.add_deps_to_graph() {
        Err(EngineError::CycleDetected { .. }) => {},
        other => panic!("expected a cycle error, got {:?}", other),
    }
}

#[test]
fn package_cycle_is_a_graph_error() {
    // A and B depend on each other: the package graph build fails.
    let cfg = config(vec![("build", cc("build", vec![]))]);
    let wss = vec![
        pkg("A", "/ws/a", vec!["build"], vec!["B"]),
        pkg("B", "/ws/b", vec!["build"], vec!["A"]),
    ];
    let mut engine = Engine::new(cfg, String::from("/ws"), "build", wss);
    let tasks = vec![String::from("build")];
    engine.seed_root_scripts(&tasks).expect("seeding failed");
    match engine.build_package_graph() {
        Err(EngineError::CycleDetected { from, to }) => {
            assert!((from == "A" && to == "B") || (from == "B" && to == "A"));
        },
        other => panic!("expected a cycle error, got {:?}", other),
    }
}

#[test]
fn dry_run_sequences_but_invokes_nothing() {
    let cfg = config(vec![
        ("build", cc("build", vec![same("clean")])),
        ("clean", cc("clean", vec![])),
    ]);
    let wss = vec![pkg("root", "/ws/root", vec!["build", "clean"], vec![])];
    let mut engine = Engine::new(cfg, String::from("/ws"), "build", wss);
    build(&mut engine, vec!["build"]);
    let report = engine.execute(true);
    assert_eq!(report.launch_order.len(), 2);
    assert_eq!(report.invocations.len(), 0);
}

#[test]
fn re_registering_an_id_replaces_the_record() {
    // Task ids are unique per (package, command): registering the same id
    // again replaces the stored record rather than duplicating it.
    let cfg = config(vec![("build", cc("build", vec![]))]);
    let wss = vec![pkg("root", "/ws/root", vec!["build"], vec![])];
    let mut engine = Engine::new(cfg, String::from("/ws"), "build", wss);
    let first = hasty::Script::new(cc("build", vec![]), &String::from("/one"), "pkg");
    let second = hasty::Script::new(cc("build", vec![]), &String::from("/two"), "pkg");
    engine.add_script(&first);
    assert_eq!(engine.scripts().len(), 1);
    assert_eq!(engine.task_graph.nodes.len(), 1);
    engine.add_script(&second);
    assert_eq!(engine.scripts().len(), 1);
    assert_eq!(engine.task_graph.nodes.len(), 1);
    assert_eq!(engine.scripts()[0].dir, "/two");
}

#[test]
fn root_placeholders_never_reach_the_graph() {
    // Tasks of the reserved root package exist only to seed dependency
    // discovery: they are registered but get no task-graph node.
    let cfg = config(vec![("build", cc("build", vec![]))]);
    let wss = vec![pkg("root", "/ws/root", vec!["build"], vec![])];
    let mut engine = Engine::new(cfg, String::from("/ws"), "build", wss);
    let tasks = vec![String::from("build")];
    engine.seed_root_scripts(&tasks).expect("seeding failed");
    assert_eq!(engine.scripts().len(), 1);
    assert_eq!(engine.scripts()[0].package_name, "__ROOT__");
    assert_eq!(engine.task_graph.nodes.len(), 0);
}

#[test]
fn fan_out_rebinds_package_and_directory() {
    let cfg = config(vec![("build", cc("build", vec![]))]);
    let wss = vec![
        pkg("A", "/ws/a", vec!["build"], vec![]),
        pkg("B", "/ws/b", vec!["build"], vec![]),
    ];
    let mut engine = Engine::new(cfg, String::from("/ws"), "build", wss);
    build(&mut engine, vec!["build"]);
    let mut names = node_names(&engine);
    names.sort();
    assert_eq!(names, vec![String::from("A#build"), String::from("B#build")]);
    let a = engine.lookup_script("A#build").expect("A#build registered");
    assert_eq!(a.package_name, "A");
    assert_eq!(a.dir, "/ws/a");
}

#[test]
fn packages_not_defining_the_called_script_are_skipped() {
    let cfg = config(vec![("build", cc("build", vec![]))]);
    let wss = vec![
        pkg("A", "/ws/a", vec!["build"], vec![]),
        pkg("B", "/ws/b", vec!["lint"], vec![]),
    ];
    let mut engine = Engine::new(cfg, String::from("/ws"), "build", wss);
    build(&mut engine, vec!["build"]);
    assert_eq!(node_names(&engine), vec![String::from("A#build")]);
}

#[test]
fn statuses_reach_finished_after_execution() {
    let cfg = config(vec![("build", cc("build", vec![]))]);
    let wss = vec![pkg("root", "/ws/root", vec!["build"], vec![])];
    let mut engine = Engine::new(cfg, String::from("/ws"), "build", wss);
    build(&mut engine, vec!["build"]);
    engine.execute(false);
    let s = engine.lookup_script("root#build").expect("registered");
    assert!(matches!(s.status, ScriptStatus::Finished));
}

#[test]
fn diamond_upstreams_all_precede_the_task() {
    // C depends on A and B; all three define build; every upstream edge is
    // added and both upstreams finish before C starts.
    let cfg = config(vec![("build", cc("build", vec![topo("build")]))]);
    let wss = vec![
        pkg("C", "/ws/c", vec!["build"], vec!["A", "B"]),
        pkg("A", "/ws/a", vec!["build"], vec![]),
        pkg("B", "/ws/b", vec!["build"], vec![]),
    ];
    let mut engine = Engine::new(cfg, String::from("/ws"), "build", wss);
    build(&mut engine, vec!["build"]);
    let mut preds = engine.predecessors_of("C#build");
    preds.sort();
    assert_eq!(preds, vec![String::from("A#build"), String::from("B#build")]);
    let order = engine.execute(false).launch_order;
    let c_at = order.iter().position(|s| s == "C#build").unwrap();
    let a_at = order.iter().position(|s| s == "A#build").unwrap();
    let b_at = order.iter().position(|s| s == "B#build").unwrap();
    assert!(a_at < c_at && b_at < c_at);
}

#[test]
fn fan_out_skips_dependencies_the_package_does_not_define() {
    // The task declares clean, but the package only defines build: no
    // same-package edge is recorded for it.
    let cfg = config(vec![
        ("build", cc("build", vec![same("clean")])),
        ("clean", cc("clean", vec![])),
    ]);
    let wss = vec![pkg("root", "/ws/root", vec!["build"], vec![])];
    let mut engine = Engine::new(cfg, String::from("/ws"), "build", wss);
    build(&mut engine, vec!["build"]);
    assert_eq!(node_names(&engine), vec![String::from("root#build")]);
    assert_eq!(engine.predecessors_of("root#build").len(), 0);
}

#[test]
fn mixed_dependency_kinds_resolve_independently() {
    // build depends on clean in the same package and on build upstream.
    let cfg = config(vec![
        ("build", cc("build", vec![same("clean"), topo("build")])),
        ("clean", cc("clean", vec![])),
    ]);
    let wss = vec![
        pkg("A", "/ws/a", vec!["build", "clean"], vec!["B"]),
        pkg("B", "/ws/b", vec!["build"], vec![]),
    ];
    let mut engine = Engine::new(cfg, String::from("/ws"), "build", wss);
    build(&mut engine, vec!["build"]);
    let mut preds = engine.predecessors_of("A#build");
    preds.sort();
    assert_eq!(preds, vec![String::from("A#clean"), String::from("B#build")]);
}

#[test]
fn seeding_several_tasks_registers_each_with_its_dependencies() {
    let cfg = config(vec![
        ("build", cc("build", vec![same("clean")])),
        ("clean", cc("clean", vec![])),
        ("lint", cc("lint", vec![])),
    ]);
    let wss = vec![pkg("root", "/ws/root", vec!["build", "clean", "lint"], vec![])];
    let mut engine = Engine::new(cfg, String::from("/ws"), "build", wss);
    let tasks = vec![String::from("build"), String::from("lint")];
    engine.seed_root_scripts(&tasks).expect("seeding failed");
    assert!(engine.lookup_script("__ROOT__#build").is_some());
    assert!(engine.lookup_script("__ROOT__#clean").is_some());
    assert!(engine.lookup_script("__ROOT__#lint").is_some());
    assert_eq!(engine.scripts().len(), 3);
}
