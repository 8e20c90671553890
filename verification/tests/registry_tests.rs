use appbase::app::App;
use appbase::plugin::PluginDecl;
use appbase::plugin::State;

fn decl(name: &str, deps: &[&str]) -> PluginDecl {
    PluginDecl { name: name.to_string(), deps: deps.iter().map(|d| d.to_string()).collect() }
}

fn views(v: &[String]) -> Vec<&str> {
    v.iter().map(|s| s.as_str()).collect()
}

fn catalog_mhj() -> Vec<PluginDecl> {
    vec![decl("m", &["h", "j"]), decl("h", &[]), decl("j", &["h"])]
}

#[test]
fn register_resolves_dependencies_transitively() {
    let mut app = App::new();
    let catalog = catalog_mhj();
    let created = app.register_plugin(&catalog, &"m".to_string());
    assert_eq!(views(&created), vec!["m", "h", "j"]);
    assert!(app.is_registered(&"m".to_string()));
    assert!(app.is_registered(&"h".to_string()));
    assert!(app.is_registered(&"j".to_string()));
    assert_eq!(app.registry.records.len(), 3);
    assert_eq!(app.plugin_state(&"m".to_string()), Some(State::Registered));
    assert_eq!(app.plugin_state(&"h".to_string()), Some(State::Registered));
    assert_eq!(app.plugin_state(&"j".to_string()), Some(State::Registered));
}

#[test]
fn register_twice_constructs_exactly_once() {
    let mut app = App::new();
    let catalog = catalog_mhj();
    let first = app.register_plugin(&catalog, &"m".to_string());
    assert_eq!(first.len(), 3);
    let records_before = app.registry.records.len();
    let second = app.register_plugin(&catalog, &"m".to_string());
    assert!(second.is_empty());
    assert_eq!(app.registry.records.len(), records_before);
}

#[test]
fn register_dependency_then_dependent() {
    let mut app = App::new();
    let catalog = catalog_mhj();
    let first = app.register_plugin(&catalog, &"h".to_string());
    assert_eq!(views(&first), vec!["h"]);
    let second = app.register_plugin(&catalog, &"j".to_string());
    assert_eq!(views(&second), vec!["j"]);
    let third = app.register_plugin(&catalog, &"m".to_string());
    assert_eq!(views(&third), vec!["m"]);
    assert_eq!(app.registry.records.len(), 3);
}

#[test]
fn initialize_runs_dependency_hooks_first() {
    let mut app = App::new();
    let catalog = catalog_mhj();
    app.register_plugin(&catalog, &"m".to_string());
    let hooks = app.initialize_plugin(&"m".to_string());
    assert_eq!(views(&hooks), vec!["h", "j", "m"]);
    assert_eq!(app.plugin_state(&"m".to_string()), Some(State::Initialized));
    assert_eq!(app.plugin_state(&"h".to_string()), Some(State::Initialized));
    assert_eq!(app.plugin_state(&"j".to_string()), Some(State::Initialized));
}

#[test]
fn initialize_twice_schedules_no_second_hook() {
    let mut app = App::new();
    let catalog = catalog_mhj();
    app.register_plugin(&catalog, &"m".to_string());
    let first = app.initialize_plugin(&"m".to_string());
    assert_eq!(first.len(), 3);
    let second = app.initialize_plugin(&"m".to_string());
    assert!(second.is_empty());
    // redundant calls through a different dependent change nothing either
    let third = app.initialize_plugin(&"j".to_string());
    assert!(third.is_empty());
}

#[test]
fn startup_before_initialize_is_a_no_op() {
    let mut app = App::new();
    let catalog = catalog_mhj();
    app.register_plugin(&catalog, &"m".to_string());
    let hooks = app.startup_plugin(&"m".to_string());
    assert!(hooks.is_empty());
    assert_eq!(app.plugin_state(&"m".to_string()), Some(State::Registered));
}

#[test]
fn startup_logs_dependent_before_dependencies() {
    // the start log records a plugin before its dependencies' own walks
    let mut app = App::new();
    let catalog = catalog_mhj();
    app.register_plugin(&catalog, &"m".to_string());
    app.initialize_plugin(&"m".to_string());
    let hooks = app.startup_plugin(&"m".to_string());
    assert_eq!(views(&hooks), vec!["h", "j", "m"]);
    assert_eq!(views(&app.registry.running), vec!["m", "h", "j"]);
    assert_eq!(app.plugin_state(&"m".to_string()), Some(State::Started));
}

#[test]
fn startup_all_starts_every_initialized_plugin() {
    let mut app = App::new();
    let catalog = catalog_mhj();
    app.register_plugin(&catalog, &"m".to_string());
    app.initialize_plugin(&"m".to_string());
    let hooks = app.startup();
    assert_eq!(hooks.len(), 3);
    assert_eq!(app.plugin_state(&"m".to_string()), Some(State::Started));
    assert_eq!(app.plugin_state(&"h".to_string()), Some(State::Started));
    assert_eq!(app.plugin_state(&"j".to_string()), Some(State::Started));
    assert!(app.has_started_plugins());
}

#[test]
fn startup_after_quit_does_nothing() {
    let mut app = App::new();
    let catalog = catalog_mhj();
    app.register_plugin(&catalog, &"m".to_string());
    app.initialize_plugin(&"m".to_string());
    app.quit();
    let hooks = app.startup();
    assert!(hooks.is_empty());
    assert_eq!(app.plugin_state(&"m".to_string()), Some(State::Initialized));
    assert!(!app.has_started_plugins());
}

#[test]
fn shutdown_reverses_observed_start_order() {
    // start order [a, b, c] with c depending on a: shutdown is [c, b, a]
    let mut app = App::new();
    let catalog = vec![decl("a", &[]), decl("b", &[]), decl("c", &["a"])];
    app.register_plugin(&catalog, &"a".to_string());
    app.register_plugin(&catalog, &"b".to_string());
    app.register_plugin(&catalog, &"c".to_string());
    app.initialize_plugin(&"a".to_string());
    app.initialize_plugin(&"b".to_string());
    app.initialize_plugin(&"c".to_string());
    app.startup_plugin(&"a".to_string());
    app.startup_plugin(&"b".to_string());
    app.startup_plugin(&"c".to_string());
    assert_eq!(views(&app.registry.running), vec!["a", "b", "c"]);
    app.quit();
    let hooks = app.shutdown();
    assert_eq!(views(&hooks), vec!["c", "b", "a"]);
    assert_eq!(app.plugin_state(&"a".to_string()), Some(State::Stopped));
    assert_eq!(app.plugin_state(&"b".to_string()), Some(State::Stopped));
    assert_eq!(app.plugin_state(&"c".to_string()), Some(State::Stopped));
}

#[test]
fn shutdown_skips_plugins_never_started() {
    let mut app = App::new();
    let catalog = vec![decl("a", &[]), decl("b", &[])];
    app.register_plugin(&catalog, &"a".to_string());
    app.register_plugin(&catalog, &"b".to_string());
    app.initialize_plugin(&"a".to_string());
    app.initialize_plugin(&"b".to_string());
    app.startup_plugin(&"a".to_string());
    let hooks = app.shutdown();
    assert_eq!(views(&hooks), vec!["a"]);
    assert_eq!(app.plugin_state(&"a".to_string()), Some(State::Stopped));
    assert_eq!(app.plugin_state(&"b".to_string()), Some(State::Initialized));
}

#[test]
fn shutdown_hook_runs_once() {
    let mut app = App::new();
    let catalog = vec![decl("a", &[])];
    app.register_plugin(&catalog, &"a".to_string());
    app.initialize_plugin(&"a".to_string());
    app.startup_plugin(&"a".to_string());
    let first = app.shutdown();
    assert_eq!(first.len(), 1);
    let second = app.shutdown();
    assert!(second.is_empty());
    assert_eq!(app.plugin_state(&"a".to_string()), Some(State::Stopped));
}

#[test]
fn find_plugin_distinguishes_registered_plugins() {
    let mut app = App::new();
    let catalog = catalog_mhj();
    assert!(app.find_plugin(&"m".to_string()).is_none());
    assert!(app.plugin_state(&"m".to_string()).is_none());
    app.register_plugin(&catalog, &"m".to_string());
    let idx = app.get_plugin(&"m".to_string());
    assert_eq!(app.registry.records[idx].name, "m");
    assert!(app.find_plugin(&"nope".to_string()).is_none());
}

#[test]
fn mutually_recursive_declarations_terminate() {
    // a malformed catalog with a dependency cycle still registers each
    // plugin exactly once and the lifecycle walks terminate
    let mut app = App::new();
    let catalog = vec![decl("x", &["y"]), decl("y", &["x"])];
    let created = app.register_plugin(&catalog, &"x".to_string());
    assert_eq!(views(&created), vec!["x", "y"]);
    assert_eq!(app.registry.records.len(), 2);
    let hooks = app.initialize_plugin(&"x".to_string());
    assert_eq!(views(&hooks), vec!["y", "x"]);
    assert_eq!(app.plugin_state(&"x".to_string()), Some(State::Initialized));
    assert_eq!(app.plugin_state(&"y".to_string()), Some(State::Initialized));
}

#[test]
fn startup_all_with_nothing_initialized_is_empty() {
    let mut app = App::new();
    let catalog = catalog_mhj();
    app.register_plugin(&catalog, &"m".to_string());
    let hooks = app.startup();
    assert!(hooks.is_empty());
    assert_eq!(app.plugin_state(&"m".to_string()), Some(State::Registered));
    assert!(!app.has_started_plugins());
}
