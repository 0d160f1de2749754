//! What is said to the discussion from outside, and what it answers.

use crate::discussion::PriorityMode;
use vstd::prelude::*;

verus! {

/// The priority mode that goes by a name: `fcfs` is first come, first
/// served, and `brevity` favours the briefest. No other name is one.
pub fn priority_mode_from_name(name: &str) -> (mode: Option<PriorityMode>)
    ensures
        mode == if name@ == "fcfs"@ {
            Some(PriorityMode::FirstComeFirstServe)
        } else if name@ == "brevity"@ {
            Some(PriorityMode::FavourBriefest)
        } else {
            None
        },
{
    let name = name.to_owned();
    if name == "fcfs".to_owned() {
        Some(PriorityMode::FirstComeFirstServe)
    } else if name == "brevity".to_owned() {
        Some(PriorityMode::FavourBriefest)
    } else {
        None
    }
}

/// Whether the clock is to stop: `pause` stops it and `unpause` lets it
/// run. No other word says either.
pub fn paused_from_name(state: &str) -> (paused: Option<bool>)
    ensures
        paused == if state@ == "pause"@ {
            Some(true)
        } else if state@ == "unpause"@ {
            Some(false)
        } else {
            None
        },
{
    let state = state.to_owned();
    if state == "pause".to_owned() {
        Some(true)
    } else if state == "unpause".to_owned() {
        Some(false)
    } else {
        None
    }
}

/// A request to take a speech.
#[derive(Debug, Clone, PartialEq, Eq)]
pub struct NewSpeakerRequest {
    pub name: String,
    /// The kind of speech: `2` asks for a response, anything else for a new
    /// point.
    pub stype: u8,
}

impl NewSpeakerRequest {
    /// Whether a response is asked for.
    pub fn is_response(&self) -> (yes: bool)
        ensures
            yes == (self.stype == 2),
    {
        self.stype == 2
    }
}

/// How a discussion is doing.
#[derive(Debug, Clone, Copy, PartialEq, Eq, Structural)]
pub enum Status {
    Normal,
    Paused,
    NonExistant,
    ServerError,
}

/// The state of a discussion, ready to be shown.
#[derive(Debug, Clone, PartialEq, Eq)]
pub struct StatusReport {
    pub status: Status,
    /// The speaking order as an HTML table.
    pub speaking_order: String,
    /// The time the discussion has taken, minutes before seconds.
    pub duration: String,
}

impl StatusReport {
    /// A report that says how the discussion is doing and nothing more.
    pub fn default(status: Status) -> (report: Self)
        ensures
            report.status == status,
            report.speaking_order@ == Seq::<char>::empty(),
            report.duration@ == Seq::<char>::empty(),
    {
        StatusReport { status: status, speaking_order: String::new(), duration: String::new() }
    }
}

} // verus!
