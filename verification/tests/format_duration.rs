use speaking_order::format_duration::{format_duration_M_S, get_nminutes, get_nseconds};
use std::time::Duration;

#[test]
fn format_duration_test1() {
    for i in 0..100 {
        for j in 0..59 {
            let d: Duration = Duration::from_secs(60 * i + j);
            assert_eq!(get_nminutes(&d), i);
            assert_eq!(get_nseconds(&d), j);
        }
    }
}

#[test]
fn seconds_below_ten_get_a_leading_zero() {
    assert_eq!(format_duration_M_S(&Duration::from_secs(0)), "0:00");
    assert_eq!(format_duration_M_S(&Duration::from_secs(5)), "0:05");
    assert_eq!(format_duration_M_S(&Duration::from_secs(9)), "0:09");
    assert_eq!(format_duration_M_S(&Duration::from_secs(10)), "0:10");
    assert_eq!(format_duration_M_S(&Duration::from_secs(59)), "0:59");
}

#[test]
fn minutes_are_written_out_in_full() {
    assert_eq!(format_duration_M_S(&Duration::from_secs(60)), "1:00");
    assert_eq!(format_duration_M_S(&Duration::from_secs(75)), "1:15");
    assert_eq!(format_duration_M_S(&Duration::from_secs(600)), "10:00");
    assert_eq!(format_duration_M_S(&Duration::from_secs(3600)), "60:00");
    assert_eq!(format_duration_M_S(&Duration::from_secs(6059)), "100:59");
    assert_eq!(format_duration_M_S(&Duration::from_secs(754 * 60 + 7)), "754:07");
}

#[test]
fn parts_of_a_second_do_not_count() {
    let d = Duration::from_millis(61_999);
    assert_eq!(get_nminutes(&d), 1);
    assert_eq!(get_nseconds(&d), 1);
    assert_eq!(format_duration_M_S(&d), "1:01");
}

#[test]
fn the_longest_duration_is_formatted() {
    let d = Duration::from_secs(u64::MAX);
    assert_eq!(get_nminutes(&d), u64::MAX / 60);
    assert_eq!(get_nseconds(&d), u64::MAX % 60);
    assert_eq!(format_duration_M_S(&d), "307445734561825860:15");
}
