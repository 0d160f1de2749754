//! The state of a discussion as a report: the speaking order as a table,
//! one row for each speech that has the floor or waits for it.

use crate::discussion::model::{point_view, speakers_view, DiscussionView, PointView};
use crate::discussion::{Discussion, ResponseBlock};
use crate::format_duration::{format_duration_M_S, minutes_seconds_text};
use crate::html_table::{
    add_body_row, cell_texts, new_table, table_body_rows, table_header_rows, table_is_plain,
    table_markup, table_to_html, with_header_row,
};
use crate::messages::{Status, StatusReport};
use crate::speech::{Speaker, SpeakerView, Speech};
use std::time::Duration;
use vstd::prelude::*;

verus! {

/// The mark of a new point in the column of kinds.
pub open spec fn new_point_mark() -> Seq<char> {
    seq!['1']
}

/// The mark of a response in the column of kinds.
pub open spec fn response_mark() -> Seq<char> {
    seq!['2']
}

/// The headings of the table of speeches.
pub open spec fn speaking_order_headings() -> Seq<Seq<char>> {
    seq!["Speaker Name"@, "Type"@, "Time Speaking"@, "Total Speaking Time"@]
}

/// The row of one speech: who speaks, the kind of speech, the time of this
/// speech, and the time the speaker has spoken in all.
pub open spec fn speech_cells(speaker: SpeakerView, speech: Speech, stype: Seq<char>) -> Seq<Seq<char>> {
    seq![
        speaker.name,
        stype,
        minutes_seconds_text(speech.duration as nat),
        minutes_seconds_text(speaker.total_speaking_time),
    ]
}

/// The rows of a block of responses.
pub open spec fn block_rows(speakers: Seq<SpeakerView>, block: Seq<Speech>) -> Seq<Seq<Seq<char>>> {
    Seq::new(
        block.len(),
        |i: int| speech_cells(speakers[block[i].speaker as int], block[i], response_mark()),
    )
}

/// The rows of a new point and of its responses behind it.
pub open spec fn point_rows(speakers: Seq<SpeakerView>, point: PointView) -> Seq<Seq<Seq<char>>> {
    seq![
        speech_cells(speakers[point.new_point.speaker as int], point.new_point, new_point_mark()),
    ] + block_rows(speakers, point.responses)
}

/// The rows of a list of new points, each with its responses.
pub open spec fn queue_rows(speakers: Seq<SpeakerView>, queue: Seq<PointView>) -> Seq<Seq<Seq<char>>>
    decreases queue.len(),
{
    if queue.len() == 0 {
        Seq::empty()
    } else {
        queue_rows(speakers, queue.drop_last()) + point_rows(speakers, queue.last())
    }
}

/// The rows of the speaking order: the current new point, the responses to
/// it, and then the waiting new points, each with its responses. Speeches
/// of the past have no row.
pub open spec fn speaking_order_rows(discussion: DiscussionView) -> Seq<Seq<Seq<char>>> {
    (match discussion.current_new_point {
        Some(point) => seq![
            speech_cells(discussion.speakers[point.speaker as int], point, new_point_mark()),
        ],
        None => Seq::empty(),
    }) + block_rows(discussion.speakers, discussion.first_response_block) + queue_rows(
        discussion.speakers,
        discussion.upcoming_speeches,
    )
}

/// Whether a report made at the second `made_at` is out of date at the
/// second `now`: a report is good for the second it was made in.
pub fn report_is_stale(now: i64, made_at: i64) -> (stale: bool)
    ensures
        stale == (now >= made_at + 1),
{
    now > made_at
}

/// Seconds as text, minutes before seconds.
fn format_seconds(seconds: u64) -> (text: String)
    ensures
        text@ == minutes_seconds_text(seconds as nat),
{
    format_duration_M_S(&Duration::from_secs(seconds))
}

/// The cells of the row of one speech, given by `speaker`, of kind `stype`.
pub fn speech_to_html(speaker: &Speaker, speech: &Speech, stype: String) -> (cells: Vec<String>)
    ensures
        cell_texts(cells@) == speech_cells(speaker@, *speech, stype@),
{
    let mut cells: Vec<String> = Vec::new();
    cells.push(speaker.name.clone());
    cells.push(stype);
    cells.push(format_seconds(speech.duration));
    cells.push(format_seconds(speaker.total_speaking_time));
    assert(cell_texts(cells@) =~= speech_cells(speaker@, *speech, stype@));
    cells
}

/// The texts of a list of rows.
pub open spec fn row_texts(rows: Seq<Vec<String>>) -> Seq<Seq<Seq<char>>> {
    Seq::new(rows.len(), |i: int| cell_texts(rows[i]@))
}

/// Puts the rows of a block of responses at the end of `rows`.
fn push_block_rows(rows: &mut Vec<Vec<String>>, speakers: &Vec<Speaker>, block: &ResponseBlock)
    requires
        forall|i: int| 0 <= i < block@.len() ==> (#[trigger] block@[i]).speaker < speakers.len(),
    ensures
        row_texts(final(rows)@) == row_texts(old(rows)@) + block_rows(
            speakers_view(speakers@),
            block@,
        ),
{
    let ghost views = speakers_view(speakers@);
    let mut i: usize = 0;
    assert(row_texts(rows@) =~= row_texts(old(rows)@) + block_rows(views, block@).take(0));
    while i < block.len()
        invariant
            i <= block@.len(),
            views == speakers_view(speakers@),
            forall|j: int| 0 <= j < block@.len() ==> (#[trigger] block@[j]).speaker < speakers.len(),
            row_texts(rows@) == row_texts(old(rows)@) + block_rows(views, block@).take(i as int),
        decreases block@.len() - i,
    {
        let response = &block[i];
        let ghost before = rows@;
        let cells = speech_to_html(&speakers[response.speaker], response, "2".to_owned());
        proof {
            reveal_strlit("2");
            assert("2"@ =~= response_mark());
            assert(cell_texts(cells@) == block_rows(views, block@)[i as int]);
        }
        rows.push(cells);
        proof {
            assert(row_texts(rows@) =~= row_texts(before).push(cell_texts(cells@)));
            assert(row_texts(rows@) =~= row_texts(old(rows)@) + block_rows(views, block@).take(
                i + 1,
            ));
        }
        i = i + 1;
    }
    assert(block_rows(views, block@).take(i as int) =~= block_rows(views, block@));
}

/// The speaking order as rows of text: the speech that is being given
/// first, then the responses to it, then the new points that wait, each
/// with its responses.
pub fn speaking_order_snapshot(discussion: &Discussion) -> (rows: Vec<Vec<String>>)
    requires
        discussion.wf(),
    ensures
        row_texts(rows@) == speaking_order_rows(discussion@),
{
    let ghost view = discussion@;
    let ghost speakers = view.speakers;
    let mut rows: Vec<Vec<String>> = Vec::new();
    match &discussion.current_new_point {
        Some(current_new_point) => {
            let cells = speech_to_html(
                &discussion.speakers[current_new_point.speaker],
                current_new_point,
                "1".to_owned(),
            );
            proof {
                reveal_strlit("1");
                assert("1"@ =~= new_point_mark());
            }
            rows.push(cells);
        },
        None => {},
    }
    let ghost head_rows = row_texts(rows@);
    proof {
        assert forall|i: int| 0 <= i < discussion.first_response_block@.len() implies (
        #[trigger] discussion.first_response_block@[i]).speaker < discussion.speakers.len() by {
            assert(view.speech_ok(view.first_response_block[i], true));
        }
    }
    push_block_rows(&mut rows, &discussion.speakers, &discussion.first_response_block);
    let ghost front_rows = row_texts(rows@);

    let mut i: usize = 0;
    assert(view.upcoming_speeches.take(0) =~= Seq::empty());
    assert(front_rows + Seq::empty() =~= front_rows);
    while i < discussion.upcoming_speeches.len()
        invariant
            i <= discussion.upcoming_speeches@.len(),
            view == discussion@,
            speakers == view.speakers,
            discussion.wf(),
            row_texts(rows@) == front_rows + queue_rows(
                speakers,
                view.upcoming_speeches.take(i as int),
            ),
        decreases discussion.upcoming_speeches@.len() - i,
    {
        let point = &discussion.upcoming_speeches[i];
        let ghost before = rows@;
        proof {
            assert(view.upcoming_speeches[i as int] == point_view(*point));
            assert(view.point_ok(view.upcoming_speeches[i as int]));
            assert forall|j: int| 0 <= j < point.1@.len() implies (#[trigger] point.1@[j]).speaker
                < discussion.speakers.len() by {
                assert(view.speech_ok(view.upcoming_speeches[i as int].responses[j], true));
            }
        }
        let cells = speech_to_html(&discussion.speakers[point.0.speaker], &point.0, "1".to_owned());
        proof {
            reveal_strlit("1");
            assert("1"@ =~= new_point_mark());
        }
        rows.push(cells);
        proof {
            assert(row_texts(rows@) =~= row_texts(before).push(cell_texts(cells@)));
        }
        push_block_rows(&mut rows, &discussion.speakers, &point.1);
        proof {
            let done = view.upcoming_speeches.take(i + 1);
            assert(done.drop_last() =~= view.upcoming_speeches.take(i as int));
            assert(done.last() == view.upcoming_speeches[i as int]);
            assert(row_texts(rows@) =~= row_texts(before) + point_rows(
                speakers,
                view.upcoming_speeches[i as int],
            ));
            assert(row_texts(rows@) =~= front_rows + queue_rows(speakers, done));
        }
        i = i + 1;
    }
    proof {
        assert(view.upcoming_speeches.take(i as int) =~= view.upcoming_speeches);
        assert(head_rows =~= match view.current_new_point {
            Some(point) => seq![speech_cells(speakers[point.speaker as int], point, new_point_mark())],
            None => Seq::empty(),
        });
        assert(row_texts(rows@) =~= speaking_order_rows(view));
    }
    rows
}

/// The table of the speaking order as HTML: the headings, and one row of
/// the body for each of `rows`.
fn speaking_order_table(rows: &Vec<Vec<String>>) -> (html: String)
    ensures
        html@ == table_markup(seq![speaking_order_headings()], row_texts(rows@)),
{
    let mut headings: Vec<String> = Vec::new();
    headings.push("Speaker Name".to_owned());
    headings.push("Type".to_owned());
    headings.push("Time Speaking".to_owned());
    headings.push("Total Speaking Time".to_owned());
    assert(cell_texts(headings@) =~= speaking_order_headings());
    let mut speaking_order = with_header_row(new_table(), &headings);
    assert(table_header_rows(speaking_order) =~= seq![speaking_order_headings()]);
    let mut i: usize = 0;
    assert(row_texts(rows@).take(0) =~= table_body_rows(speaking_order));
    while i < rows.len()
        invariant
            i <= rows@.len(),
            table_is_plain(speaking_order),
            table_header_rows(speaking_order) == seq![speaking_order_headings()],
            table_body_rows(speaking_order) == row_texts(rows@).take(i as int),
        decreases rows@.len() - i,
    {
        add_body_row(&mut speaking_order, &rows[i]);
        assert(table_body_rows(speaking_order) =~= row_texts(rows@).take(i + 1));
        i = i + 1;
    }
    assert(row_texts(rows@).take(i as int) =~= row_texts(rows@));
    table_to_html(&speaking_order)
}

/// The report of a discussion: whether it is paused, the table of the
/// speeches that have the floor or wait for it, and the time it has taken.
pub fn generate_status_report(discussion: &Discussion) -> (report: StatusReport)
    requires
        discussion.wf(),
    ensures
        report.status == if discussion.paused {
            Status::Paused
        } else {
            Status::Normal
        },
        report.speaking_order@ == table_markup(
            seq![speaking_order_headings()],
            speaking_order_rows(discussion@),
        ),
        report.duration@ == minutes_seconds_text(discussion.duration as nat),
{
    let rows = speaking_order_snapshot(discussion);
    StatusReport {
        status: if discussion.paused {
            Status::Paused
        } else {
            Status::Normal
        },
        speaking_order: speaking_order_table(&rows),
        duration: format_seconds(discussion.duration),
    }
}

} // verus!
