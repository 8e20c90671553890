use appbase::app::App;

#[test]
fn quit_flag_flips_once_and_stays() {
    let mut app = App::new();
    assert!(!app.is_quitting());
    app.quit();
    assert!(app.is_quitting());
    app.quit();
    assert!(app.is_quitting());
}

#[test]
fn quit_handles_are_counted() {
    let mut app = App::new();
    assert_eq!(app.quit.outstanding, 0);
    let h1 = app.quit_handle().expect("handle before quit");
    let h2 = app.quit_handle().expect("handle before quit");
    assert_eq!(app.quit.outstanding, 2);
    app.drop_quit_handle(h1);
    assert_eq!(app.quit.outstanding, 1);
    app.drop_quit_handle(h2);
    assert_eq!(app.quit.outstanding, 0);
}

#[test]
fn no_handles_issued_after_quit() {
    let mut app = App::new();
    app.quit();
    assert!(app.quit_handle().is_none());
    assert_eq!(app.quit.outstanding, 0);
}

#[test]
fn teardown_waits_for_every_handle() {
    let mut app = App::new();
    let h = app.quit_handle().expect("handle before quit");
    app.quit();
    assert!(!app.quit.ready_for_teardown());
    app.drop_quit_handle(h);
    assert!(app.quit.ready_for_teardown());
}

#[test]
fn teardown_not_ready_before_quit() {
    let app = App::new();
    assert!(!app.quit.ready_for_teardown());
}
