use rustdmenu::failure::Failure;
use rustdmenu::session::{Action, Event, Session};

fn to_the_picker(stored: Option<&str>, reported: &str) -> (Session, String) {
    let (session, action) = Session::start();
    assert!(matches!(action, Action::Enumerate));
    let (session, action) = session.step(Event::Enumerated { output: reported.to_string() });
    assert!(matches!(action, Action::Load));
    let (session, action) = session.step(Event::Loaded { stored: stored.map(|s| s.to_string()) });
    match action {
        Action::Present { input } => (session, input),
        _ => panic!("the picker was not asked for"),
    }
}

fn from_the_picker(session: Session, picked: &str) -> (String, String) {
    let (session, action) = session.step(Event::Picked { output: picked.to_string() });
    let selection = match action {
        Action::Report { selection } => selection,
        _ => panic!("the selection was not reported"),
    };
    let (session, action) = session.step(Event::Reported);
    let document = match action {
        Action::Save { document } => document,
        _ => panic!("nothing was to be stored"),
    };
    let (session, action) = session.step(Event::Saved);
    assert!(matches!(action, Action::Finish));
    assert!(matches!(session, Session::Done));
    (selection, document)
}

#[test]
fn a_first_selection_is_stored_with_count_one() {
    let (session, input) = to_the_picker(None, "firefox\nvim\nhtop\n");
    assert_eq!(input, "firefox\nvim\nhtop");
    let (selection, document) = from_the_picker(session, "vim\n");
    assert_eq!(selection, "vim");
    assert_eq!(document, "{\"vim\":1}");
}

#[test]
fn no_selection_stores_the_table_as_it_was() {
    let (session, input) = to_the_picker(Some("{\"vim\": 3, \"htop\": 1}"), "firefox\nvim\nhtop\n");
    assert_eq!(input, "vim\nhtop\nfirefox");
    let (selection, document) = from_the_picker(session, "");
    assert_eq!(selection, "");
    assert_eq!(document, "{\"htop\":1,\"vim\":3}");
}

#[test]
fn a_known_selection_goes_up_by_one() {
    let (session, _) = to_the_picker(Some("{\"vim\":3,\"htop\":1}"), "firefox\nvim\nhtop\n");
    let (selection, document) = from_the_picker(session, "htop\n");
    assert_eq!(selection, "htop");
    assert_eq!(document, "{\"htop\":2,\"vim\":3}");
}

#[test]
fn a_selection_that_was_not_offered_is_counted_too() {
    let (session, _) = to_the_picker(Some("{\"vim\":3}"), "vim\n");
    let (selection, document) = from_the_picker(session, "  xterm -e top \n");
    assert_eq!(selection, "xterm -e top");
    assert_eq!(document, "{\"vim\":3,\"xterm -e top\":1}");
}

#[test]
fn white_space_alone_is_no_selection() {
    let (session, _) = to_the_picker(Some("{\"vim\":3}"), "vim\n");
    let (selection, document) = from_the_picker(session, " \n");
    assert_eq!(selection, "");
    assert_eq!(document, "{\"vim\":3}");
}

#[test]
fn a_broken_store_ends_the_run() {
    let (session, _) = Session::start();
    let (session, _) = session.step(Event::Enumerated { output: "vim\n".to_string() });
    let (session, action) = session.step(Event::Loaded { stored: Some("{\"vim\":".to_string()) });
    assert!(matches!(action, Action::Abort { failure: Failure::Corruption }));
    assert!(matches!(session, Session::Failed { failure: Failure::Corruption }));
}

#[test]
fn a_step_that_fails_ends_the_run_with_its_failure() {
    let (session, _) = Session::start();
    let (session, action) = session.step(Event::Failed);
    assert!(matches!(action, Action::Abort { failure: Failure::SubprocessFailure }));
    assert!(matches!(session, Session::Failed { failure: Failure::SubprocessFailure }));

    let (session, _) = Session::start();
    let (session, _) = session.step(Event::Enumerated { output: String::new() });
    let (_, action) = session.step(Event::Failed);
    assert!(matches!(action, Action::Abort { failure: Failure::Corruption }));

    let (session, _) = to_the_picker(None, "vim\n");
    let (_, action) = session.step(Event::Failed);
    assert!(matches!(action, Action::Abort { failure: Failure::SubprocessFailure }));

    let (session, _) = to_the_picker(None, "vim\n");
    let (session, _) = session.step(Event::Picked { output: "vim\n".to_string() });
    let (_, action) = session.step(Event::Failed);
    assert!(matches!(action, Action::Abort { failure: Failure::WriteFailure }));

    let (session, _) = to_the_picker(None, "vim\n");
    let (session, _) = session.step(Event::Picked { output: "vim\n".to_string() });
    let (session, _) = session.step(Event::Reported);
    let (_, action) = session.step(Event::Failed);
    assert!(matches!(action, Action::Abort { failure: Failure::WriteFailure }));
}

#[test]
fn an_event_out_of_turn_ends_the_run() {
    let (session, _) = Session::start();
    let (session, action) = session.step(Event::Saved);
    assert!(matches!(action, Action::Abort { failure: Failure::SubprocessFailure }));
    let (session, action) = session.step(Event::Enumerated { output: "vim\n".to_string() });
    assert!(matches!(action, Action::Abort { failure: Failure::SubprocessFailure }));
    assert!(matches!(session, Session::Failed { failure: Failure::SubprocessFailure }));
}

#[test]
fn a_run_that_is_over_stays_over() {
    let (session, _) = to_the_picker(None, "vim\n");
    let (session, _) = session.step(Event::Picked { output: String::new() });
    let (session, _) = session.step(Event::Reported);
    let (session, _) = session.step(Event::Saved);
    let (session, action) = session.step(Event::Picked { output: "vim".to_string() });
    assert!(matches!(action, Action::Finish));
    assert!(matches!(session, Session::Done));
}

#[test]
fn with_nothing_reported_the_known_identifiers_are_offered() {
    let (_, input) = to_the_picker(Some("{\"a\":1,\"b\":2}"), "");
    assert_eq!(input, "b\na");
}
