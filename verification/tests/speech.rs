use speaking_order::speech::{Speaker, Speech};

#[test]
fn a_new_speaker_has_not_spoken() {
    let s = Speaker::new("Alice".to_string());
    assert_eq!(s.name, "Alice");
    assert!(s.aliases.is_empty());
    assert_eq!(s.total_speaking_time, 0);
    assert_eq!(s.speeches_given, 0);
}

#[test]
fn merging_adds_totals_and_takes_over_names() {
    let mut a = Speaker::new("Alice".to_string());
    a.total_speaking_time = 10;
    a.speeches_given = 2;
    a.aliases.push("Al".to_string());
    let mut b = Speaker::new("Alicia".to_string());
    b.total_speaking_time = 7;
    b.speeches_given = 3;
    b.aliases.push("Al".to_string());
    b.aliases.push("Ally".to_string());
    a.merge_with(b);
    assert_eq!(a.name, "Alice");
    assert_eq!(a.total_speaking_time, 17);
    assert_eq!(a.speeches_given, 5);
    let mut aliases = a.aliases.clone();
    aliases.sort();
    assert_eq!(aliases, vec!["Al".to_string(), "Alicia".to_string(), "Ally".to_string()]);
}

#[test]
fn merging_with_a_namesake_holds_the_name_once() {
    let mut a = Speaker::new("Alice".to_string());
    a.aliases.push("Bob".to_string());
    let b = Speaker::new("Bob".to_string());
    a.merge_with(b);
    assert_eq!(a.aliases, vec!["Bob".to_string()]);
}

#[test]
fn a_second_of_speaking_is_charged_to_the_speaker() {
    let mut s = Speaker::new("Alice".to_string());
    s.tick_speaking_time();
    s.tick_speaking_time();
    assert_eq!(s.total_speaking_time, 2);
    assert_eq!(s.speeches_given, 0);
    assert_eq!(s.name, "Alice");
}

#[test]
fn a_second_of_a_speech_is_charged_to_speech_and_speaker() {
    let mut speaker = Speaker::new("Alice".to_string());
    speaker.total_speaking_time = 4;
    let mut speech = Speech { speaker: 0, duration: 1, is_response: true, order_tiebreak: 9 };
    speech.tick_clock(&mut speaker);
    assert_eq!(speech, Speech { speaker: 0, duration: 2, is_response: true, order_tiebreak: 9 });
    assert_eq!(speaker.total_speaking_time, 5);
}
