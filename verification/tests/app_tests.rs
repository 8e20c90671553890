use appbase::app::App;
use appbase::plugin::PluginDecl;
use appbase::plugin::State;

fn decl(name: &str, deps: &[&str]) -> PluginDecl {
    PluginDecl { name: name.to_string(), deps: deps.iter().map(|d| d.to_string()).collect() }
}

fn views(v: &[String]) -> Vec<&str> {
    v.iter().map(|s| s.as_str()).collect()
}

#[test]
fn full_lifecycle_with_dependencies() {
    // register plugin m declaring dependencies [h, j] (no further deps);
    // after init and startup all three report Started; after quit and
    // shutdown all three report Stopped, shutdown hooks in the exact
    // reverse of start order: m started last, so m's shutdown runs first
    let mut app = App::new();
    let catalog = vec![decl("m", &["h", "j"]), decl("h", &[]), decl("j", &[])];
    let created = app.register_plugin(&catalog, &"m".to_string());
    assert_eq!(views(&created), vec!["m", "h", "j"]);

    let init_hooks = app.initialize_plugin(&"m".to_string());
    assert_eq!(views(&init_hooks), vec!["h", "j", "m"]);

    app.startup_plugin(&"h".to_string());
    app.startup_plugin(&"j".to_string());
    app.startup_plugin(&"m".to_string());
    assert_eq!(views(&app.registry.running), vec!["h", "j", "m"]);
    assert_eq!(app.plugin_state(&"m".to_string()), Some(State::Started));
    assert_eq!(app.plugin_state(&"h".to_string()), Some(State::Started));
    assert_eq!(app.plugin_state(&"j".to_string()), Some(State::Started));

    app.quit();
    let handle = app.quit_handle();
    assert!(handle.is_none(), "no handles are issued once quitting");
    assert!(app.quit.ready_for_teardown());

    let shutdown_hooks = app.shutdown();
    assert_eq!(views(&shutdown_hooks), vec!["m", "j", "h"]);
    assert_eq!(app.plugin_state(&"m".to_string()), Some(State::Stopped));
    assert_eq!(app.plugin_state(&"h".to_string()), Some(State::Stopped));
    assert_eq!(app.plugin_state(&"j".to_string()), Some(State::Stopped));
}

#[test]
fn execute_gate_reflects_started_plugins() {
    let mut app = App::new();
    let catalog = vec![decl("solo", &[])];
    app.register_plugin(&catalog, &"solo".to_string());
    assert!(!app.has_started_plugins());
    app.initialize_plugin(&"solo".to_string());
    assert!(!app.has_started_plugins());
    app.startup_plugin(&"solo".to_string());
    assert!(app.has_started_plugins());
}

#[test]
fn lifecycle_and_bus_compose() {
    // a plugin subscribes during init, another publishes during startup
    let mut app = App::new();
    let catalog = vec![decl("producer", &[]), decl("consumer", &["producer"])];
    app.register_plugin(&catalog, &"consumer".to_string());
    let init_hooks = app.initialize_plugin(&"consumer".to_string());
    assert_eq!(views(&init_hooks), vec!["producer", "consumer"]);

    // init hooks run: the consumer subscribes
    let mut sub = app.subscribe_channel(&"beat".to_string());

    let startup_hooks = app.startup();
    assert_eq!(startup_hooks.len(), 2);
    // startup hooks run: the producer publishes
    let h = app.get_channel(&"beat".to_string());
    app.publish(h, "alive".to_string());

    match app.try_recv(&mut sub) {
        appbase::bus::RecvOutcome::Message(m) => assert_eq!(m, "alive"),
        _ => panic!("expected the published message"),
    }
}
