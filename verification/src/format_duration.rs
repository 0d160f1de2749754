//! Durations as text: minutes, a colon, and two digits of seconds.

use std::time::Duration;
use vstd::prelude::*;

verus! {

/// The whole seconds that a `Duration` holds: what `Duration::as_secs` returns.
pub uninterp spec fn duration_whole_seconds(d: Duration) -> u64;

/// `Duration::as_secs` returns the number of whole seconds in the duration.
pub assume_specification[ Duration::as_secs ](d: &Duration) -> (secs: u64)
    ensures
        secs == duration_whole_seconds(*d),
;

/// `Duration::from_secs` builds a duration of exactly that many whole seconds.
pub assume_specification[ Duration::from_secs ](secs: u64) -> (d: Duration)
    ensures
        duration_whole_seconds(d) == secs,
;

/// The character of one decimal digit.
pub open spec fn digit_char(d: nat) -> char
    recommends
        d < 10,
{
    seq!['0', '1', '2', '3', '4', '5', '6', '7', '8', '9'][d as int]
}

/// A natural number written in decimal, without leading zeros.
pub open spec fn decimal_text(n: nat) -> Seq<char>
    decreases n,
{
    if n < 10 {
        seq![digit_char(n)]
    } else {
        decimal_text(n / 10).push(digit_char(n % 10))
    }
}

/// A natural number in decimal, with a leading zero where it has one digit.
pub open spec fn two_digit_text(n: nat) -> Seq<char> {
    if n < 10 {
        seq!['0'] + decimal_text(n)
    } else {
        decimal_text(n)
    }
}

/// A number of seconds as minutes and seconds: `75` reads `1:15`.
pub open spec fn minutes_seconds_text(total_seconds: nat) -> Seq<char> {
    decimal_text(total_seconds / 60) + seq![':'] + two_digit_text(total_seconds % 60)
}

/// `format!` with `{}` writes an integer in decimal; with `{:0>2}` it writes it
/// in decimal too, and puts zeros before it until it is two characters wide.
#[verifier::external_body]
fn join_minutes_seconds(minutes: u64, seconds: u64) -> (text: String)
    ensures
        text@ == decimal_text(minutes as nat) + seq![':'] + two_digit_text(seconds as nat),
{
    format!("{}:{:0>2}", minutes, seconds)
}

/// The whole minutes in a duration.
pub fn get_nminutes(d: &Duration) -> (minutes: u64)
    ensures
        minutes == duration_whole_seconds(*d) / 60,
{
    d.as_secs() / 60
}

/// The seconds of a duration that do not make up a whole minute.
pub fn get_nseconds(d: &Duration) -> (seconds: u64)
    ensures
        seconds == duration_whole_seconds(*d) % 60,
        seconds < 60,
{
    d.as_secs() % 60
}

/// A duration as text, minutes before seconds.
#[allow(non_snake_case)]
pub fn format_duration_M_S(d: &Duration) -> (text: String)
    ensures
        text@ == minutes_seconds_text(duration_whole_seconds(*d) as nat),
{
    join_minutes_seconds(get_nminutes(d), get_nseconds(d))
}

} // verus!
