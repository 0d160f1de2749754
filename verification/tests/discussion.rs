use speaking_order::discussion::{
    is_more_pressing, AddSpeechError, Discussion, GotoSpeechResult, PriorityMode,
};
use speaking_order::speech::{Speaker, Speech};
use std::collections::VecDeque;

fn point(speaker: usize, order_tiebreak: u64) -> Speech {
    Speech { speaker, duration: 0, is_response: false, order_tiebreak }
}

fn response(speaker: usize, order_tiebreak: u64) -> Speech {
    Speech { speaker, duration: 0, is_response: true, order_tiebreak }
}

fn add(d: &mut Discussion, name: &str, is_response: bool) {
    assert_eq!(d.add_new_speech(name.to_string(), is_response), Ok(()));
}

fn name_of<'a>(d: &'a Discussion, speech: &Speech) -> &'a str {
    &d.speakers[speech.speaker].name
}

fn waiting_names(d: &Discussion) -> Vec<&str> {
    d.upcoming_speeches.iter().map(|(p, _)| name_of(d, p)).collect()
}

fn block_names<'a>(d: &'a Discussion, block: &VecDeque<Speech>) -> Vec<&'a str> {
    block.iter().map(|r| name_of(d, r)).collect()
}

/// Alice has the floor, Bob and Carol have responded, Dave and Erin wait.
fn busy() -> Discussion {
    let mut d = Discussion::new();
    add(&mut d, "Alice", false);
    add(&mut d, "Bob", true);
    add(&mut d, "Carol", true);
    add(&mut d, "Dave", false);
    add(&mut d, "Erin", false);
    d
}

#[test]
fn a_new_discussion_is_empty_and_runs() {
    let d = Discussion::new();
    assert!(d.speakers.is_empty());
    assert_eq!(d.current_new_point, None);
    assert!(d.first_response_block.is_empty());
    assert!(d.upcoming_speeches.is_empty());
    assert!(d.past_speeches.is_empty());
    assert_eq!(d.duration, 0);
    assert!(!d.paused);
    assert!(d.count_idle_time);
    assert_eq!(d.speeches_added, 0);
    assert_eq!(d.priority_mode, PriorityMode::FirstComeFirstServe);
}

#[test]
fn speeches_are_placed_by_kind() {
    let mut d = Discussion::new();
    add(&mut d, "Alice", false);
    add(&mut d, "Bob", false);
    add(&mut d, "Bob", true);
    add(&mut d, "Alice", true);
    assert_eq!(d.speakers.len(), 2);
    assert_eq!(d.speakers[0].name, "Alice");
    assert_eq!(d.speakers[1].name, "Bob");
    assert_eq!(d.current_new_point, Some(point(0, 0)));
    assert_eq!(d.first_response_block, VecDeque::from([response(1, 2), response(0, 3)]));
    assert_eq!(d.upcoming_speeches, VecDeque::from([(point(1, 1), VecDeque::new())]));
    assert!(d.past_speeches.is_empty());
    assert_eq!(d.speeches_added, 4);
    assert_eq!(d.speakers[0].speeches_given, 2);
    assert_eq!(d.speakers[1].speeches_given, 2);
}

#[test]
fn an_empty_discussion_has_nowhere_to_go() {
    let mut d = Discussion::new();
    assert_eq!(d.goto_next_speech(), GotoSpeechResult::NoSpeechToGoTo);
    assert_eq!(d, Discussion::new());
    d.goto_previous_speech();
    assert_eq!(d, Discussion::new());
}

#[test]
fn favouring_the_briefest_keeps_the_order_while_nobody_has_spoken() {
    let mut d = busy();
    add(&mut d, "Frank", true);
    let before = d.clone();
    d.set_priority_mode(PriorityMode::FavourBriefest);
    assert_eq!(d.priority_mode, PriorityMode::FavourBriefest);
    assert_eq!(d.current_new_point, before.current_new_point);
    assert_eq!(d.first_response_block, before.first_response_block);
    assert_eq!(d.upcoming_speeches, before.upcoming_speeches);
    assert_eq!(d.past_speeches, before.past_speeches);
    assert_eq!(waiting_names(&d), vec!["Dave", "Erin"]);
    assert_eq!(block_names(&d, &d.first_response_block), vec!["Bob", "Carol", "Frank"]);
}

#[test]
fn a_response_to_nothing_is_refused() {
    let mut d = Discussion::new();
    assert_eq!(
        d.add_new_speech("Alice".to_string(), true),
        Err(AddSpeechError::NothingToRespondTo)
    );
    assert_eq!(d, Discussion::new());
}

#[test]
fn a_response_with_nobody_on_the_floor_takes_it_as_a_new_point() {
    let mut d = Discussion::new();
    add(&mut d, "Alice", false);
    assert_eq!(d.goto_next_speech(), GotoSpeechResult::NoSpeechToGoTo);
    assert_eq!(d.current_new_point, None);
    add(&mut d, "Bob", true);
    assert_eq!(d.current_new_point, Some(point(1, 1)));
    assert!(d.first_response_block.is_empty());
    assert!(d.upcoming_speeches.is_empty());
    assert_eq!(d.past_speeches, VecDeque::from([(point(0, 0), VecDeque::new())]));
}

#[test]
fn first_come_first_served_keeps_the_order_of_arrival() {
    let mut d = Discussion::new();
    let arrivals = [
        ("Alice", false),
        ("Bob", true),
        ("Carol", false),
        ("Alice", true),
        ("Dave", false),
        ("Bob", false),
        ("Carol", true),
    ];
    for (name, is_response) in arrivals {
        add(&mut d, name, is_response);
    }
    assert_eq!(d.current_new_point, Some(point(0, 0)));
    assert_eq!(
        d.first_response_block,
        VecDeque::from([response(1, 1), response(0, 3), response(2, 6)])
    );
    assert_eq!(
        d.upcoming_speeches,
        VecDeque::from([
            (point(2, 2), VecDeque::new()),
            (point(3, 4), VecDeque::new()),
            (point(1, 5), VecDeque::new()),
        ])
    );
    let placed = d.clone();
    d.resort_speaking_order();
    assert_eq!(d, placed);
}

#[test]
fn the_floor_moves_from_a_point_to_its_responses_and_on() {
    let mut d = busy();
    // From the new point to its first response.
    assert_eq!(d.goto_next_speech(), GotoSpeechResult::Success);
    assert_eq!(d.current_new_point, None);
    assert_eq!(d.first_response_block, VecDeque::from([response(1, 1), response(2, 2)]));
    assert_eq!(d.past_speeches, VecDeque::from([(point(0, 0), VecDeque::new())]));
    // From one response to the next.
    assert_eq!(d.goto_next_speech(), GotoSpeechResult::Success);
    assert_eq!(d.current_new_point, None);
    assert_eq!(d.first_response_block, VecDeque::from([response(2, 2)]));
    assert_eq!(
        d.past_speeches,
        VecDeque::from([(point(0, 0), VecDeque::from([response(1, 1)]))])
    );
    // From the last response to the next new point.
    assert_eq!(d.goto_next_speech(), GotoSpeechResult::Success);
    assert_eq!(d.current_new_point, Some(point(3, 3)));
    assert!(d.first_response_block.is_empty());
    assert_eq!(d.upcoming_speeches, VecDeque::from([(point(4, 4), VecDeque::new())]));
    assert_eq!(
        d.past_speeches,
        VecDeque::from([(point(0, 0), VecDeque::from([response(1, 1), response(2, 2)]))])
    );
    // From a new point without responses to the next new point.
    assert_eq!(d.goto_next_speech(), GotoSpeechResult::Success);
    assert_eq!(d.current_new_point, Some(point(4, 4)));
    assert!(d.upcoming_speeches.is_empty());
    assert_eq!(d.past_speeches.len(), 2);
    assert_eq!(d.past_speeches[1], (point(3, 3), VecDeque::new()));
    // From the last new point to an empty floor.
    assert_eq!(d.goto_next_speech(), GotoSpeechResult::NoSpeechToGoTo);
    assert_eq!(d.current_new_point, None);
    assert!(d.first_response_block.is_empty());
    assert_eq!(d.past_speeches.len(), 3);
    assert_eq!(d.past_speeches[2], (point(4, 4), VecDeque::new()));
    // And no further.
    let drained = d.clone();
    assert_eq!(d.goto_next_speech(), GotoSpeechResult::NoSpeechToGoTo);
    assert_eq!(d, drained);
}

#[test]
fn the_last_response_leaves_an_empty_floor_where_nothing_waits() {
    let mut d = Discussion::new();
    add(&mut d, "Alice", false);
    add(&mut d, "Bob", true);
    assert_eq!(d.goto_next_speech(), GotoSpeechResult::Success);
    assert_eq!(d.goto_next_speech(), GotoSpeechResult::NoSpeechToGoTo);
    assert_eq!(d.current_new_point, None);
    assert!(d.first_response_block.is_empty());
    assert_eq!(
        d.past_speeches,
        VecDeque::from([(point(0, 0), VecDeque::from([response(1, 1)]))])
    );
}

#[test]
fn a_response_without_a_past_point_is_an_illegal_state() {
    let mut d = Discussion::new();
    d.speakers.push(Speaker::new("Alice".to_string()));
    d.speeches_added = 1;
    d.first_response_block.push_back(response(0, 0));
    let before = d.clone();
    assert_eq!(d.goto_next_speech(), GotoSpeechResult::IllegalDiscussionSomehow);
    assert_eq!(d, before);
}

#[test]
fn an_empty_floor_with_speeches_waiting_is_an_illegal_state() {
    let mut d = Discussion::new();
    d.speakers.push(Speaker::new("Alice".to_string()));
    d.speeches_added = 1;
    d.upcoming_speeches.push_back((point(0, 0), VecDeque::new()));
    let before = d.clone();
    assert_eq!(d.goto_next_speech(), GotoSpeechResult::IllegalDiscussionSomehow);
    assert_eq!(d, before);
}

#[test]
fn moving_on_and_back_gives_the_discussion_as_it_was() {
    let mut d = busy();
    add(&mut d, "Frank", false);
    for _ in 0..6 {
        let before = d.clone();
        let result = d.goto_next_speech();
        assert_ne!(result, GotoSpeechResult::IllegalDiscussionSomehow);
        assert_ne!(d, before);
        let after = d.clone();
        d.goto_previous_speech();
        assert_eq!(d, before);
        d.goto_next_speech();
        assert_eq!(d, after);
    }
    assert_eq!(d.current_new_point, None);
    assert!(d.first_response_block.is_empty());
    assert!(d.upcoming_speeches.is_empty());
}

#[test]
fn moving_back_from_an_empty_floor_brings_the_last_speech_back() {
    let mut d = Discussion::new();
    add(&mut d, "Alice", false);
    assert_eq!(d.goto_next_speech(), GotoSpeechResult::NoSpeechToGoTo);
    let drained = d.clone();
    assert_eq!(d.goto_next_speech(), GotoSpeechResult::NoSpeechToGoTo);
    assert_eq!(d, drained);
    d.goto_previous_speech();
    assert_ne!(d, drained);
    assert_eq!(d.current_new_point, Some(point(0, 0)));
    assert!(d.past_speeches.is_empty());
}

#[test]
fn moving_back_puts_the_current_point_at_the_head_of_the_waiting_ones() {
    let mut d = busy();
    d.goto_next_speech();
    d.goto_next_speech();
    d.goto_next_speech();
    add(&mut d, "Frank", true);
    // Dave has the floor, Frank has responded, Erin waits; Carol spoke last.
    d.goto_previous_speech();
    assert_eq!(d.current_new_point, None);
    assert_eq!(d.first_response_block, VecDeque::from([response(2, 2)]));
    assert_eq!(
        d.upcoming_speeches,
        VecDeque::from([
            (point(3, 3), VecDeque::from([response(5, 5)])),
            (point(4, 4), VecDeque::new()),
        ])
    );
    assert_eq!(
        d.past_speeches,
        VecDeque::from([(point(0, 0), VecDeque::from([response(1, 1)]))])
    );
    // Back once more, to Bob, and then to Alice's point itself.
    d.goto_previous_speech();
    assert_eq!(d.first_response_block, VecDeque::from([response(1, 1), response(2, 2)]));
    assert_eq!(d.past_speeches, VecDeque::from([(point(0, 0), VecDeque::new())]));
    d.goto_previous_speech();
    assert_eq!(d.current_new_point, Some(point(0, 0)));
    assert_eq!(d.first_response_block, VecDeque::from([response(1, 1), response(2, 2)]));
    assert!(d.past_speeches.is_empty());
    // At the beginning there is nothing before.
    let first = d.clone();
    d.goto_previous_speech();
    assert_eq!(d, first);
}

#[test]
fn a_paused_clock_changes_nothing() {
    let mut d = busy();
    d.set_priority_mode(PriorityMode::FavourBriefest);
    d.tick_clock();
    d.set_paused(true);
    assert!(d.paused);
    let before = d.clone();
    d.tick_clock();
    d.tick_clock();
    assert_eq!(d, before);
    d.set_paused(false);
    d.tick_clock();
    assert_eq!(d.duration, 2);
}

#[test]
fn a_second_is_charged_to_the_point_that_is_being_given() {
    let mut d = busy();
    d.tick_clock();
    d.tick_clock();
    d.tick_clock();
    assert_eq!(d.duration, 3);
    assert_eq!(d.current_new_point.as_ref().unwrap().duration, 3);
    assert_eq!(d.speakers[0].total_speaking_time, 3);
    for who in 1..5 {
        assert_eq!(d.speakers[who].total_speaking_time, 0);
    }
    assert!(d.first_response_block.iter().all(|r| r.duration == 0));
    assert!(d.upcoming_speeches.iter().all(|(p, _)| p.duration == 0));
}

#[test]
fn a_second_is_charged_to_the_response_that_is_being_given() {
    let mut d = busy();
    add(&mut d, "Alice", true);
    d.tick_clock();
    d.goto_next_speech();
    d.tick_clock();
    d.tick_clock();
    assert_eq!(d.duration, 3);
    assert_eq!(d.first_response_block[0].duration, 2);
    assert_eq!(d.first_response_block[1].duration, 0);
    assert_eq!(d.first_response_block[2].duration, 0);
    assert_eq!(d.speakers[1].total_speaking_time, 2);
    assert_eq!(d.speakers[0].total_speaking_time, 1);
    assert_eq!(d.past_speeches[0].0.duration, 1);
    d.goto_next_speech();
    d.goto_next_speech();
    d.tick_clock();
    // Alice responds to her own point: both speeches count for her.
    assert_eq!(d.first_response_block[0].duration, 1);
    assert_eq!(d.speakers[0].total_speaking_time, 2);
}

#[test]
fn an_empty_floor_is_timed_only_where_idle_time_counts() {
    let mut d = Discussion::new();
    d.tick_clock();
    d.tick_clock();
    assert_eq!(d.duration, 2);
    d.set_count_idle_time(false);
    assert!(!d.count_idle_time);
    let before = d.clone();
    d.tick_clock();
    assert_eq!(d, before);
    add(&mut d, "Alice", false);
    d.tick_clock();
    assert_eq!(d.duration, 3);
    assert_eq!(d.speakers[0].total_speaking_time, 1);
    d.goto_next_speech();
    let drained = d.clone();
    d.tick_clock();
    assert_eq!(d, drained);
    d.set_count_idle_time(true);
    d.tick_clock();
    assert_eq!(d.duration, 4);
    assert_eq!(d.past_speeches[0].0.duration, 1);
    assert_eq!(d.speakers[0].total_speaking_time, 1);
}

/// Alice has spoken 2 seconds, Bob 1, Carol none; Bob has the floor, and
/// Carol, Alice, Bob and Dave wait in that order.
fn uneven() -> Discussion {
    let mut d = Discussion::new();
    add(&mut d, "Alice", false);
    add(&mut d, "Bob", false);
    add(&mut d, "Carol", false);
    d.tick_clock();
    d.tick_clock();
    d.goto_next_speech();
    d.tick_clock();
    add(&mut d, "Alice", false);
    add(&mut d, "Bob", false);
    add(&mut d, "Dave", false);
    d
}

#[test]
fn the_briefest_speak_first_and_ties_keep_their_order() {
    let mut d = uneven();
    assert_eq!(waiting_names(&d), vec!["Carol", "Alice", "Bob", "Dave"]);
    d.set_priority_mode(PriorityMode::FavourBriefest);
    assert_eq!(waiting_names(&d), vec!["Carol", "Dave", "Bob", "Alice"]);
    assert_eq!(name_of(&d, d.current_new_point.as_ref().unwrap()), "Bob");
    assert_eq!(d.past_speeches.len(), 1);
    let sorted = d.clone();
    d.resort_speaking_order();
    assert_eq!(d, sorted);
    d.set_priority_mode(PriorityMode::FirstComeFirstServe);
    assert_eq!(waiting_names(&d), vec!["Carol", "Alice", "Bob", "Dave"]);
}

#[test]
fn a_speech_taken_under_brevity_goes_to_its_place() {
    let mut d = uneven();
    d.set_priority_mode(PriorityMode::FavourBriefest);
    add(&mut d, "Erin", false);
    assert_eq!(waiting_names(&d), vec!["Carol", "Dave", "Erin", "Bob", "Alice"]);
    add(&mut d, "Alice", true);
    add(&mut d, "Carol", true);
    add(&mut d, "Bob", true);
    add(&mut d, "Erin", true);
    assert_eq!(block_names(&d, &d.first_response_block), vec!["Carol", "Erin", "Bob", "Alice"]);
}

#[test]
fn the_clock_reorders_under_brevity() {
    let mut d = uneven();
    d.set_priority_mode(PriorityMode::FavourBriefest);
    assert_eq!(waiting_names(&d), vec!["Carol", "Dave", "Bob", "Alice"]);
    // Bob speaks on: level with Alice he stays before her, then she passes.
    d.tick_clock();
    assert_eq!(waiting_names(&d), vec!["Carol", "Dave", "Bob", "Alice"]);
    d.tick_clock();
    assert_eq!(waiting_names(&d), vec!["Carol", "Dave", "Alice", "Bob"]);
    assert_eq!(d.speakers[1].total_speaking_time, 3);
    assert_eq!(d.duration, 5);
}

#[test]
fn responses_travel_with_their_point_and_are_ordered_among_themselves() {
    let mut d = uneven();
    add(&mut d, "Alice", true);
    add(&mut d, "Carol", true);
    // Bob goes back to wait, with the two responses to him.
    d.goto_previous_speech();
    assert_eq!(waiting_names(&d), vec!["Bob", "Carol", "Alice", "Bob", "Dave"]);
    assert_eq!(block_names(&d, &d.upcoming_speeches[0].1), vec!["Alice", "Carol"]);
    d.set_priority_mode(PriorityMode::FavourBriefest);
    assert_eq!(waiting_names(&d), vec!["Carol", "Dave", "Bob", "Bob", "Alice"]);
    assert_eq!(block_names(&d, &d.upcoming_speeches[2].1), vec!["Carol", "Alice"]);
    assert_eq!(d.upcoming_speeches[2].0.order_tiebreak, 1);
    assert_eq!(d.upcoming_speeches[3].0.order_tiebreak, 4);
    assert!(d.upcoming_speeches[3].1.is_empty());
    assert_eq!(name_of(&d, d.current_new_point.as_ref().unwrap()), "Alice");
}

#[test]
fn the_response_that_is_being_given_is_not_moved() {
    let mut d = Discussion::new();
    add(&mut d, "Alice", false);
    add(&mut d, "Bob", true);
    add(&mut d, "Alice", true);
    add(&mut d, "Carol", true);
    d.tick_clock();
    d.goto_next_speech();
    d.tick_clock();
    d.tick_clock();
    assert_eq!(block_names(&d, &d.first_response_block), vec!["Bob", "Alice", "Carol"]);
    d.set_priority_mode(PriorityMode::FavourBriefest);
    // Bob has spoken longest, and speaks on; behind him Carol passes Alice.
    assert_eq!(block_names(&d, &d.first_response_block), vec!["Bob", "Carol", "Alice"]);
    d.tick_clock();
    d.tick_clock();
    assert_eq!(block_names(&d, &d.first_response_block), vec!["Bob", "Carol", "Alice"]);
    assert_eq!(d.first_response_block[0].duration, 4);
}

#[test]
fn with_a_point_on_the_floor_all_its_responses_are_ordered() {
    let mut d = uneven();
    add(&mut d, "Alice", true);
    add(&mut d, "Bob", true);
    add(&mut d, "Carol", true);
    d.set_priority_mode(PriorityMode::FavourBriefest);
    assert_eq!(block_names(&d, &d.first_response_block), vec!["Carol", "Bob", "Alice"]);
}

#[test]
fn is_more_pressing_goes_by_the_mode() {
    let d = uneven();
    let early_long = point(0, 1);
    let late_brief = point(2, 7);
    let fcfs = PriorityMode::FirstComeFirstServe;
    let brief = PriorityMode::FavourBriefest;
    assert!(is_more_pressing(&fcfs, &d.speakers, &early_long, &late_brief));
    assert!(!is_more_pressing(&fcfs, &d.speakers, &late_brief, &early_long));
    assert!(!is_more_pressing(&brief, &d.speakers, &early_long, &late_brief));
    assert!(is_more_pressing(&brief, &d.speakers, &late_brief, &early_long));
    assert!(!is_more_pressing(&fcfs, &d.speakers, &early_long, &early_long));
    assert!(!is_more_pressing(&brief, &d.speakers, &early_long, &point(0, 9)));
}

#[test]
fn a_block_is_sorted_by_insertion() {
    let d = uneven();
    let mut block = VecDeque::from([
        response(0, 10),
        response(3, 11),
        response(1, 12),
        response(2, 13),
        response(1, 14),
    ]);
    Discussion::sort_response_block(&mut block, &PriorityMode::FavourBriefest, &d.speakers);
    assert_eq!(
        block,
        VecDeque::from([
            response(3, 11),
            response(2, 13),
            response(1, 12),
            response(1, 14),
            response(0, 10),
        ])
    );
    Discussion::sort_response_block(&mut block, &PriorityMode::FirstComeFirstServe, &d.speakers);
    assert_eq!(
        block,
        VecDeque::from([
            response(0, 10),
            response(3, 11),
            response(1, 12),
            response(2, 13),
            response(1, 14),
        ])
    );
}

#[test]
fn the_operations_keep_the_discussion_sound() {
    let mut d = Discussion::new();
    assert!(d.is_wf());
    let steps: [(&str, bool); 8] = [
        ("Alice", false),
        ("Bob", true),
        ("Carol", false),
        ("Alice", true),
        ("Dave", false),
        ("Bob", false),
        ("Carol", true),
        ("Erin", true),
    ];
    for (turn, (name, is_response)) in steps.into_iter().enumerate() {
        add(&mut d, name, is_response);
        assert!(d.is_wf());
        d.tick_clock();
        assert!(d.is_wf());
        if turn % 3 == 2 {
            d.goto_next_speech();
            assert!(d.is_wf());
        }
        if turn == 4 {
            d.set_priority_mode(PriorityMode::FavourBriefest);
            assert!(d.is_wf());
        }
    }
    for _ in 0..12 {
        assert_ne!(d.goto_next_speech(), GotoSpeechResult::IllegalDiscussionSomehow);
        assert!(d.is_wf());
    }
    for _ in 0..12 {
        d.goto_previous_speech();
        assert!(d.is_wf());
    }
    assert!(d.past_speeches.is_empty());
}

#[test]
fn an_unsound_discussion_is_told() {
    let sound = busy();
    assert!(sound.is_wf());

    let mut d = sound.clone();
    d.speakers[1].name = "Alice".to_string();
    assert!(!d.is_wf());

    let mut d = sound.clone();
    d.speakers[0].total_speaking_time = 1;
    assert!(!d.is_wf());
    d.duration = 1;
    assert!(d.is_wf());

    let mut d = sound.clone();
    d.speakers[2].speeches_given = 6;
    assert!(!d.is_wf());

    let mut d = sound.clone();
    d.first_response_block[1].speaker = 5;
    assert!(!d.is_wf());

    let mut d = sound.clone();
    d.first_response_block[0].is_response = false;
    assert!(!d.is_wf());

    let mut d = sound.clone();
    d.upcoming_speeches[1].0.is_response = true;
    assert!(!d.is_wf());

    let mut d = sound.clone();
    d.upcoming_speeches[0].0.order_tiebreak = 5;
    assert!(!d.is_wf());

    let mut d = sound.clone();
    d.upcoming_speeches[0].1.push_back(point(1, 1));
    assert!(!d.is_wf());

    // A tiebreak given twice: to two new points, or to a point and a response.
    let mut d = sound.clone();
    d.upcoming_speeches[0].0.order_tiebreak = 4;
    assert!(!d.is_wf());
    let mut d = sound.clone();
    d.first_response_block[1].order_tiebreak = 0;
    assert!(!d.is_wf());
    let mut d = sound.clone();
    d.goto_next_speech();
    d.goto_next_speech();
    assert!(d.is_wf());
    d.past_speeches[0].1[0].order_tiebreak = 3;
    assert!(!d.is_wf());
    d.past_speeches[0].1[0].order_tiebreak = 1;
    assert!(d.is_wf());

    let mut d = sound.clone();
    d.current_new_point.as_mut().unwrap().duration = 1;
    assert!(!d.is_wf());

    let mut d = sound.clone();
    d.current_new_point = None;
    assert!(!d.is_wf());
    d.first_response_block.clear();
    assert!(!d.is_wf());
    d.upcoming_speeches.clear();
    assert!(d.is_wf());

    let mut d = sound.clone();
    d.past_speeches.push_back((response(0, 0), VecDeque::new()));
    assert!(!d.is_wf());
}
