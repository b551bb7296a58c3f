use hasty::{make_script_id, CommandConfig, Config, DepKind, Dependency, Script, ScriptStatus};

fn cc(command: &str, deps: Option<Vec<Dependency>>) -> CommandConfig {
    CommandConfig { command: String::from(command), dependencies: deps, files: None, output: None }
}

fn same(name: &str) -> Dependency {
    Dependency { kind: DepKind::Same, name: String::from(name) }
}

fn topo(name: &str) -> Dependency {
    Dependency { kind: DepKind::Topological, name: String::from(name) }
}

#[test]
fn script_id_joins_package_and_command() {
    assert_eq!(make_script_id("pkg", "build"), "pkg#build");
    assert_eq!(make_script_id("", "x"), "#x");
    let s = Script::new(cc("build", None), &String::from("/d"), "pkg");
    assert_eq!(s.id(), "pkg#build");
}

#[test]
fn new_script_without_dependencies_is_ready() {
    let s = Script::new(cc("build", None), &String::from("/d"), "pkg");
    assert!(matches!(s.status, ScriptStatus::Ready));
    assert!(!s.has_dependencies());
    let s2 = Script::new(cc("build", Some(vec![])), &String::from("/d"), "pkg");
    assert!(matches!(s2.status, ScriptStatus::Ready));
}

#[test]
fn new_script_with_dependencies_is_waiting() {
    let s = Script::new(cc("build", Some(vec![same("clean")])), &String::from("/d"), "pkg");
    assert!(matches!(s.status, ScriptStatus::Waiting));
    assert!(s.has_dependencies());
}

#[test]
fn dependency_lists_split_by_kind() {
    let s = Script::new(
        cc("build", Some(vec![same("clean"), topo("build"), same("prep")])),
        &String::from("/d"),
        "pkg",
    );
    assert_eq!(
        s.dependencies(),
        Some(vec![String::from("clean"), String::from("prep")])
    );
    assert_eq!(s.topological_dependencies(), Some(vec![String::from("build")]));
}

#[test]
fn no_declared_list_means_no_lists_at_all() {
    let s = Script::new(cc("build", None), &String::from("/d"), "pkg");
    assert_eq!(s.dependencies(), None);
    assert_eq!(s.topological_dependencies(), None);
}

#[test]
fn pipeline_lookup_finds_declared_entries_only() {
    let config = Config {
        pipeline: vec![
            (String::from("build"), cc("build", None)),
            (String::from("clean"), cc("clean", None)),
        ],
    };
    assert!(config.lookup("build").is_some());
    assert_eq!(config.lookup("clean").unwrap().command, "clean");
    assert!(config.lookup("missing").is_none());
}

#[test]
fn duplicate_copies_every_field() {
    let s = Script::new(cc("build", Some(vec![same("clean")])), &String::from("/d"), "pkg");
    let d = s.duplicate();
    assert_eq!(d.command, s.command);
    assert_eq!(d.package_name, s.package_name);
    assert_eq!(d.dir, s.dir);
    assert_eq!(d.dependencies(), s.dependencies());
    assert!(matches!(d.status, ScriptStatus::Waiting));
}

#[test]
fn scripts_compare_by_their_command() {
    let a = Script::new(cc("build", None), &String::from("/a"), "pkg1");
    let b = Script::new(cc("build", None), &String::from("/b"), "pkg2");
    let c = Script::new(cc("clean", None), &String::from("/a"), "pkg1");
    assert!(a == b);
    assert!(!(a == c));
}
