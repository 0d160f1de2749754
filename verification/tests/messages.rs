use speaking_order::discussion::PriorityMode;
use speaking_order::messages::{
    paused_from_name, priority_mode_from_name, NewSpeakerRequest, Status, StatusReport,
};

#[test]
fn a_bare_report_holds_the_status_only() {
    let report = StatusReport::default(Status::NonExistant);
    assert_eq!(report.status, Status::NonExistant);
    assert_eq!(report.speaking_order, "");
    assert_eq!(report.duration, "");
    assert_eq!(StatusReport::default(Status::ServerError).status, Status::ServerError);
}

#[test]
fn only_kind_two_asks_for_a_response() {
    let ask = |stype: u8| NewSpeakerRequest { name: "Alice".to_string(), stype }.is_response();
    assert!(ask(2));
    assert!(!ask(0));
    assert!(!ask(1));
    assert!(!ask(3));
    assert!(!ask(255));
}

#[test]
fn priority_modes_go_by_two_names() {
    assert_eq!(priority_mode_from_name("fcfs"), Some(PriorityMode::FirstComeFirstServe));
    assert_eq!(priority_mode_from_name("brevity"), Some(PriorityMode::FavourBriefest));
    assert_eq!(priority_mode_from_name("FCFS"), None);
    assert_eq!(priority_mode_from_name("shy"), None);
    assert_eq!(priority_mode_from_name(""), None);
}

#[test]
fn the_clock_is_stopped_and_started_by_two_words() {
    assert_eq!(paused_from_name("pause"), Some(true));
    assert_eq!(paused_from_name("unpause"), Some(false));
    assert_eq!(paused_from_name("paused"), None);
    assert_eq!(paused_from_name(""), None);
}
