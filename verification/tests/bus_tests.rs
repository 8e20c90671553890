use appbase::app::App;
use appbase::bus::RecvOutcome;

fn expect_message(r: RecvOutcome) -> String {
    match r {
        RecvOutcome::Message(m) => m,
        RecvOutcome::Lagged(n) => panic!("expected a message, lagged by {}", n),
        RecvOutcome::Empty => panic!("expected a message, channel empty"),
    }
}

fn expect_lagged(r: RecvOutcome) -> usize {
    match r {
        RecvOutcome::Message(m) => panic!("expected lag, got message {}", m),
        RecvOutcome::Lagged(n) => n,
        RecvOutcome::Empty => panic!("expected lag, channel empty"),
    }
}

fn expect_empty(r: RecvOutcome) {
    match r {
        RecvOutcome::Message(m) => panic!("expected empty, got message {}", m),
        RecvOutcome::Lagged(n) => panic!("expected empty, lagged by {}", n),
        RecvOutcome::Empty => {},
    }
}

#[test]
fn handles_for_one_name_share_one_topic() {
    // a message sent via any handle is observed by a subscriber obtained
    // via any other handle of the same name
    let mut app = App::new();
    let h1 = app.get_channel(&"x".to_string());
    let h2 = app.get_channel(&"x".to_string());
    assert_eq!(h1, h2);
    assert_eq!(app.bus.topics.len(), 1);
    let mut sub = app.subscribe_channel(&"x".to_string());
    app.publish(h2, "ping".to_string());
    assert_eq!(expect_message(app.try_recv(&mut sub)), "ping");
}

#[test]
fn distinct_names_make_distinct_topics() {
    let mut app = App::new();
    let hx = app.get_channel(&"x".to_string());
    let hy = app.get_channel(&"y".to_string());
    assert_ne!(hx, hy);
    let mut suby = app.subscribe_channel(&"y".to_string());
    app.publish(hx, "only-x".to_string());
    expect_empty(app.try_recv(&mut suby));
}

#[test]
fn subscriber_never_sees_earlier_messages() {
    // no-replay: a message published strictly before the subscription is
    // never delivered to it
    let mut app = App::new();
    let h = app.get_channel(&"news".to_string());
    app.publish(h, "before".to_string());
    let mut sub = app.subscribe_channel(&"news".to_string());
    expect_empty(app.try_recv(&mut sub));
    app.publish(h, "after".to_string());
    assert_eq!(expect_message(app.try_recv(&mut sub)), "after");
    expect_empty(app.try_recv(&mut sub));
}

#[test]
fn slow_subscriber_sees_lag_not_silence() {
    // capacity 2, five messages published before any receive: the next
    // receive reports three lost messages, then delivers the retained two
    let mut app = App::new();
    app.set_capacity(2);
    let mut sub = app.subscribe_channel(&"t".to_string());
    let h = app.get_channel(&"t".to_string());
    for i in 1..=5 {
        app.publish(h, format!("m{}", i));
    }
    assert_eq!(expect_lagged(app.try_recv(&mut sub)), 3);
    assert_eq!(expect_message(app.try_recv(&mut sub)), "m4");
    assert_eq!(expect_message(app.try_recv(&mut sub)), "m5");
    expect_empty(app.try_recv(&mut sub));
}

#[test]
fn capacity_is_fixed_at_topic_creation() {
    // changing the default later never affects an existing topic
    let mut app = App::new();
    app.set_capacity(2);
    let ha = app.get_channel(&"a".to_string());
    app.set_capacity(10);
    let hb = app.get_channel(&"b".to_string());

    let mut sa = app.subscribe_channel(&"a".to_string());
    let mut sb = app.subscribe_channel(&"b".to_string());
    for i in 1..=5 {
        app.publish(ha, format!("a{}", i));
        app.publish(hb, format!("b{}", i));
    }
    // topic "a" kept capacity 2: three messages were lost
    assert_eq!(expect_lagged(app.try_recv(&mut sa)), 3);
    // topic "b" was created under the new default and kept all five
    for i in 1..=5 {
        assert_eq!(expect_message(app.try_recv(&mut sb)), format!("b{}", i));
    }
}

#[test]
fn receiver_at_capacity_boundary_loses_nothing() {
    let mut app = App::new();
    app.set_capacity(2);
    let mut sub = app.subscribe_channel(&"t".to_string());
    let h = app.get_channel(&"t".to_string());
    app.publish(h, "one".to_string());
    app.publish(h, "two".to_string());
    assert_eq!(expect_message(app.try_recv(&mut sub)), "one");
    assert_eq!(expect_message(app.try_recv(&mut sub)), "two");
    expect_empty(app.try_recv(&mut sub));
}

#[test]
fn independent_subscribers_have_independent_positions() {
    let mut app = App::new();
    let h = app.get_channel(&"t".to_string());
    let mut s1 = app.subscribe_channel(&"t".to_string());
    app.publish(h, "first".to_string());
    let mut s2 = app.subscribe_channel(&"t".to_string());
    app.publish(h, "second".to_string());
    assert_eq!(expect_message(app.try_recv(&mut s1)), "first");
    assert_eq!(expect_message(app.try_recv(&mut s1)), "second");
    assert_eq!(expect_message(app.try_recv(&mut s2)), "second");
    expect_empty(app.try_recv(&mut s2));
}
