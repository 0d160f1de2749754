use speaking_order::discussion::Discussion;
use speaking_order::messages::Status;
use speaking_order::report::{
    generate_status_report, report_is_stale, speaking_order_snapshot, speech_to_html,
};
use speaking_order::speech::{Speaker, Speech};

const HEADER: &str = "<thead><tr><th>Speaker Name</th><th>Type</th><th>Time Speaking</th>\
<th>Total Speaking Time</th></tr></thead>";

#[test]
fn the_row_of_a_speech_has_four_cells() {
    let mut speaker = Speaker::new("Alice".to_string());
    speaker.total_speaking_time = 125;
    let speech = Speech { speaker: 0, duration: 61, is_response: true, order_tiebreak: 3 };
    assert_eq!(
        speech_to_html(&speaker, &speech, "2".to_string()),
        vec!["Alice".to_string(), "2".to_string(), "1:01".to_string(), "2:05".to_string()]
    );
}

#[test]
fn the_report_of_an_empty_discussion_has_an_empty_table() {
    let d = Discussion::new();
    let report = generate_status_report(&d);
    assert_eq!(report.status, Status::Normal);
    assert_eq!(report.speaking_order, format!("<table>{}<tbody/></table>", HEADER));
    assert_eq!(report.duration, "0:00");
}

#[test]
fn the_report_lists_who_speaks_and_who_waits() {
    let mut d = Discussion::new();
    assert_eq!(d.add_new_speech("Alice".to_string(), false), Ok(()));
    assert_eq!(d.add_new_speech("Bob".to_string(), true), Ok(()));
    assert_eq!(d.add_new_speech("Carol".to_string(), false), Ok(()));
    assert_eq!(d.add_new_speech("Dave".to_string(), false), Ok(()));
    for _ in 0..65 {
        d.tick_clock();
    }
    d.goto_next_speech();
    d.goto_next_speech();
    assert_eq!(d.add_new_speech("Alice".to_string(), true), Ok(()));
    // Carol goes back to wait, with Alice's response; Bob responds again.
    d.goto_previous_speech();
    d.tick_clock();
    d.set_paused(true);
    let report = generate_status_report(&d);
    assert_eq!(report.status, Status::Paused);
    assert_eq!(report.duration, "1:06");
    let rows = "<tr><td>Bob</td><td>2</td><td>0:01</td><td>0:01</td></tr>\
<tr><td>Carol</td><td>1</td><td>0:00</td><td>0:00</td></tr>\
<tr><td>Alice</td><td>2</td><td>0:00</td><td>1:05</td></tr>\
<tr><td>Dave</td><td>1</td><td>0:00</td><td>0:00</td></tr>";
    assert_eq!(
        report.speaking_order,
        format!("<table>{}<tbody>{}</tbody></table>", HEADER, rows)
    );
}

#[test]
fn the_report_starts_with_the_point_that_is_being_given() {
    let mut d = Discussion::new();
    assert_eq!(d.add_new_speech("Alice".to_string(), false), Ok(()));
    d.tick_clock();
    let report = generate_status_report(&d);
    assert_eq!(report.status, Status::Normal);
    assert_eq!(report.duration, "0:01");
    assert_eq!(
        report.speaking_order,
        format!(
            "<table>{}<tbody><tr><td>Alice</td><td>1</td><td>0:01</td><td>0:01</td></tr>\
</tbody></table>",
            HEADER
        )
    );
}

#[test]
fn names_are_written_as_they_are() {
    let mut d = Discussion::new();
    assert_eq!(d.add_new_speech("".to_string(), false), Ok(()));
    assert_eq!(d.add_new_speech("<b>Zoë</b>".to_string(), true), Ok(()));
    let report = generate_status_report(&d);
    assert_eq!(
        report.speaking_order,
        format!(
            "<table>{}<tbody><tr><td></td><td>1</td><td>0:00</td><td>0:00</td></tr>\
<tr><td><b>Zoë</b></td><td>2</td><td>0:00</td><td>0:00</td></tr></tbody></table>",
            HEADER
        )
    );
}

#[test]
fn the_snapshot_has_a_row_for_each_speech_on_the_floor_or_waiting() {
    let mut d = Discussion::new();
    assert!(speaking_order_snapshot(&d).is_empty());
    assert_eq!(d.add_new_speech("Alice".to_string(), false), Ok(()));
    assert_eq!(d.add_new_speech("Bob".to_string(), true), Ok(()));
    assert_eq!(d.add_new_speech("Carol".to_string(), false), Ok(()));
    for _ in 0..61 {
        d.tick_clock();
    }
    let row = |cells: [&str; 4]| cells.iter().map(|c| c.to_string()).collect::<Vec<String>>();
    assert_eq!(
        speaking_order_snapshot(&d),
        vec![
            row(["Alice", "1", "1:01", "1:01"]),
            row(["Bob", "2", "0:00", "0:00"]),
            row(["Carol", "1", "0:00", "0:00"]),
        ]
    );
    // What is done has no row.
    d.goto_next_speech();
    d.tick_clock();
    assert_eq!(
        speaking_order_snapshot(&d),
        vec![row(["Bob", "2", "0:01", "0:01"]), row(["Carol", "1", "0:00", "0:00"])]
    );
    d.goto_next_speech();
    d.goto_next_speech();
    assert!(speaking_order_snapshot(&d).is_empty());
    assert_eq!(generate_status_report(&d).duration, "1:02");
}

#[test]
fn a_report_is_good_for_the_second_it_was_made_in() {
    assert!(!report_is_stale(100, 100));
    assert!(report_is_stale(101, 100));
    assert!(report_is_stale(1, 0));
    assert!(!report_is_stale(99, 100));
    assert!(!report_is_stale(i64::MAX, i64::MAX));
    assert!(report_is_stale(i64::MAX, i64::MAX - 1));
    assert!(!report_is_stale(i64::MIN, i64::MAX));
}
