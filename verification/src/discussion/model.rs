//! A discussion as a mathematical value, and what its operations make of
//! it: which states are sound, how speeches are ranked, and where the floor
//! and the clock move.

use crate::discussion::{GotoSpeechResult, NewPointThenResponseBlock, PriorityMode};
use crate::speech::{Speaker, SpeakerView, Speech};
use crate::stable_order::{is_stable_sort_of, sorted_by_key};
use crate::tally::tally;
use vstd::prelude::*;

verus! {

/// A new point and the responses to it, as a mathematical value.
pub struct PointView {
    pub new_point: Speech,
    pub responses: Seq<Speech>,
}

/// A discussion as a mathematical value.
pub struct DiscussionView {
    pub speakers: Seq<SpeakerView>,
    pub current_new_point: Option<Speech>,
    pub first_response_block: Seq<Speech>,
    pub upcoming_speeches: Seq<PointView>,
    pub past_speeches: Seq<PointView>,
    pub duration: nat,
    pub paused: bool,
    pub count_idle_time: bool,
    pub speeches_added: nat,
    pub priority_mode: PriorityMode,
}

/// One new point with its responses, as a value.
pub open spec fn point_view(point: NewPointThenResponseBlock) -> PointView {
    PointView { new_point: point.0, responses: point.1@ }
}

/// A list of new points with their responses, as values.
pub open spec fn queue_view(queue: Seq<NewPointThenResponseBlock>) -> Seq<PointView> {
    Seq::new(queue.len(), |i: int| point_view(queue[i]))
}

/// A registry of speakers, as values.
pub open spec fn speakers_view(speakers: Seq<Speaker>) -> Seq<SpeakerView> {
    Seq::new(speakers.len(), |i: int| speakers[i]@)
}

/// The number by which a speech is ranked, lower first: under
/// `FirstComeFirstServe` its tiebreak, under `FavourBriefest` the time its
/// speaker has spoken in all.
pub open spec fn priority_key(
    mode: PriorityMode,
    speakers: Seq<SpeakerView>,
    speech: Speech,
) -> int {
    match mode {
        PriorityMode::FirstComeFirstServe => speech.order_tiebreak as int,
        PriorityMode::FavourBriefest => speakers[speech.speaker as int].total_speaking_time as int,
    }
}

/// Whether `a` is to speak before `b`.
pub open spec fn more_pressing(
    mode: PriorityMode,
    speakers: Seq<SpeakerView>,
    a: Speech,
    b: Speech,
) -> bool {
    priority_key(mode, speakers, a) < priority_key(mode, speakers, b)
}

/// The ranking of speeches under a mode.
pub open spec fn speech_key(mode: PriorityMode, speakers: Seq<SpeakerView>) -> spec_fn(
    Speech,
) -> int {
    |speech: Speech| priority_key(mode, speakers, speech)
}

/// The ranking of new points under a mode; the responses do not count.
pub open spec fn point_key(mode: PriorityMode, speakers: Seq<SpeakerView>) -> spec_fn(
    PointView,
) -> int {
    |point: PointView| priority_key(mode, speakers, point.new_point)
}

/// What a speech counts for among the speeches of tiebreak `tiebreak`: one
/// if that is its own, nothing if not.
pub open spec fn counts_tiebreak(tiebreak: u64) -> spec_fn(Speech) -> nat {
    |speech: Speech|
        if speech.order_tiebreak == tiebreak {
            1nat
        } else {
            0nat
        }
}

/// How many speeches of tiebreak `tiebreak` a new point and its responses
/// make.
pub open spec fn point_counts_tiebreak(tiebreak: u64) -> spec_fn(PointView) -> nat {
    |point: PointView|
        counts_tiebreak(tiebreak)(point.new_point) + tally(
            point.responses,
            counts_tiebreak(tiebreak),
        )
}

/// `sorted` holds the new points of `source`, each with its own responses
/// put in order.
pub open spec fn blocks_sorted(
    sorted: Seq<PointView>,
    source: Seq<PointView>,
    mode: PriorityMode,
    speakers: Seq<SpeakerView>,
) -> bool {
    &&& sorted.len() == source.len()
    &&& forall|i: int|
        0 <= i < source.len() ==> (#[trigger] sorted[i]).new_point == source[i].new_point
            && is_stable_sort_of(
            sorted[i].responses,
            source[i].responses,
            speech_key(mode, speakers),
        )
}

impl DiscussionView {
    /// A speech of this discussion: its speaker is registered, its role is
    /// the one its place asks for, it came before any speech yet to come,
    /// and its time is part of its speaker's.
    pub open spec fn speech_ok(self, speech: Speech, is_response: bool) -> bool {
        &&& speech.speaker < self.speakers.len()
        &&& speech.is_response == is_response
        &&& speech.order_tiebreak < self.speeches_added
        &&& speech.duration <= self.speakers[speech.speaker as int].total_speaking_time
    }

    /// A block of responses of this discussion.
    pub open spec fn block_ok(self, block: Seq<Speech>) -> bool {
        forall|i: int| 0 <= i < block.len() ==> self.speech_ok(#[trigger] block[i], true)
    }

    /// A new point of this discussion, with its responses.
    pub open spec fn point_ok(self, point: PointView) -> bool {
        self.speech_ok(point.new_point, false) && self.block_ok(point.responses)
    }

    /// A list of new points of this discussion.
    pub open spec fn queue_ok(self, queue: Seq<PointView>) -> bool {
        forall|i: int| 0 <= i < queue.len() ==> self.point_ok(#[trigger] queue[i])
    }

    /// Nobody has the floor.
    pub open spec fn is_idle(self) -> bool {
        self.current_new_point is None && self.first_response_block.len() == 0
    }

    /// The registry is sound: one record for each name, and no speaker has
    /// spoken longer than the discussion has lasted or given more speeches
    /// than were taken.
    pub open spec fn speakers_ok(self) -> bool {
        &&& forall|i: int, j: int|
            0 <= i < j < self.speakers.len() ==> (#[trigger] self.speakers[i]).name != (
            #[trigger] self.speakers[j]).name
        &&& forall|i: int|
            0 <= i < self.speakers.len() ==> (#[trigger] self.speakers[i]).total_speaking_time
                <= self.duration && self.speakers[i].speeches_given <= self.speeches_added
    }

    /// How many speeches of the discussion have the tiebreak `tiebreak`.
    pub open spec fn speeches_with_tiebreak(self, tiebreak: u64) -> nat {
        (match self.current_new_point {
            Some(point) => counts_tiebreak(tiebreak)(point),
            None => 0,
        }) + tally(self.first_response_block, counts_tiebreak(tiebreak)) + tally(
            self.upcoming_speeches,
            point_counts_tiebreak(tiebreak),
        ) + tally(self.past_speeches, point_counts_tiebreak(tiebreak))
    }

    /// No two speeches have the same tiebreak.
    pub open spec fn tiebreaks_differ(self) -> bool {
        forall|tiebreak: u64| #[trigger] self.speeches_with_tiebreak(tiebreak) <= 1
    }

    /// The state is one that the operations can reach: responses stand in
    /// blocks and new points at their heads; no tiebreak was given twice;
    /// while nobody has the floor nothing waits; and a response is never
    /// given before a new point.
    pub open spec fn wf(self) -> bool {
        &&& self.speakers_ok()
        &&& self.tiebreaks_differ()
        &&& self.duration <= u64::MAX
        &&& self.speeches_added <= u64::MAX
        &&& (self.current_new_point matches Some(point) ==> self.speech_ok(point, false))
        &&& self.block_ok(self.first_response_block)
        &&& self.queue_ok(self.upcoming_speeches)
        &&& self.queue_ok(self.past_speeches)
        &&& (self.is_idle() ==> self.upcoming_speeches.len() == 0)
        &&& (self.current_new_point is None && self.first_response_block.len() > 0
            ==> self.past_speeches.len() > 0)
    }

    /// The key by which this discussion ranks speeches.
    pub open spec fn key(self) -> spec_fn(Speech) -> int {
        speech_key(self.priority_mode, self.speakers)
    }

    /// How many speeches at the head of the first block a resort leaves
    /// alone: the response that is being given, where one is.
    pub open spec fn pinned(self) -> int {
        if self.current_new_point is None && self.first_response_block.len() > 0 {
            1
        } else {
            0
        }
    }

    /// Every speech that waits stands where the priority mode puts it.
    pub open spec fn in_order(self) -> bool {
        &&& sorted_by_key(self.first_response_block.skip(self.pinned()), self.key())
        &&& sorted_by_key(
            self.upcoming_speeches,
            point_key(self.priority_mode, self.speakers),
        )
        &&& forall|i: int|
            0 <= i < self.upcoming_speeches.len() ==> sorted_by_key(
                (#[trigger] self.upcoming_speeches[i]).responses,
                self.key(),
            )
    }

    /// `self` is `source` with its waiting speeches put in order: the
    /// responses of each block among themselves, the new points among
    /// themselves with their responses behind them. The speech that is being
    /// given stays where it is, and so does all the rest.
    pub open spec fn is_resort_of(self, source: DiscussionView) -> bool {
        &&& self.speakers == source.speakers
        &&& self.current_new_point == source.current_new_point
        &&& self.past_speeches == source.past_speeches
        &&& self.duration == source.duration
        &&& self.paused == source.paused
        &&& self.count_idle_time == source.count_idle_time
        &&& self.speeches_added == source.speeches_added
        &&& self.priority_mode == source.priority_mode
        &&& self.first_response_block.len() == source.first_response_block.len()
        &&& (source.pinned() == 1 ==> self.first_response_block[0]
            == source.first_response_block[0])
        &&& is_stable_sort_of(
            self.first_response_block.skip(source.pinned()),
            source.first_response_block.skip(source.pinned()),
            source.key(),
        )
        &&& exists|blocks_done: Seq<PointView>|
            #![trigger blocks_sorted(blocks_done, source.upcoming_speeches, source.priority_mode, source.speakers)]
            blocks_sorted(
                blocks_done,
                source.upcoming_speeches,
                source.priority_mode,
                source.speakers,
            ) && is_stable_sort_of(
                self.upcoming_speeches,
                blocks_done,
                point_key(source.priority_mode, source.speakers),
            )
    }

    /// The discussion with its first waiting new point given the floor,
    /// and `past` for what is done.
    pub open spec fn with_next_point_current(self, past: Seq<PointView>) -> DiscussionView {
        DiscussionView {
            current_new_point: Some(self.upcoming_speeches[0].new_point),
            first_response_block: self.upcoming_speeches[0].responses,
            upcoming_speeches: self.upcoming_speeches.skip(1),
            past_speeches: past,
            ..self
        }
    }

    /// The discussion after the floor has moved on by one speech.
    ///
    /// A new point that is done goes to the past with no responses yet; a
    /// response that is done goes behind the responses of the last past
    /// point. Where the responses are through, the first waiting new point
    /// takes the floor with its block. A response with no past point to go
    /// to, or an empty floor with speeches waiting, cannot be: the
    /// discussion is left as it is.
    pub open spec fn after_next(self) -> DiscussionView {
        match self.current_new_point {
            Some(point) => {
                let past = self.past_speeches.push(
                    PointView { new_point: point, responses: Seq::empty() },
                );
                if self.first_response_block.len() > 0 || self.upcoming_speeches.len() == 0 {
                    DiscussionView { current_new_point: None, past_speeches: past, ..self }
                } else {
                    self.with_next_point_current(past)
                }
            },
            None => {
                if self.first_response_block.len() == 0 || self.past_speeches.len() == 0 {
                    self
                } else {
                    let last = self.past_speeches.last();
                    let past = self.past_speeches.drop_last().push(
                        PointView {
                            new_point: last.new_point,
                            responses: last.responses.push(self.first_response_block[0]),
                        },
                    );
                    if self.first_response_block.len() > 1 || self.upcoming_speeches.len() == 0 {
                        DiscussionView {
                            first_response_block: self.first_response_block.skip(1),
                            past_speeches: past,
                            ..self
                        }
                    } else {
                        self.with_next_point_current(past)
                    }
                }
            },
        }
    }

    /// What moving on reports: `Success` where a speech has the floor
    /// afterwards, `NoSpeechToGoTo` where none is left to take it, and
    /// `IllegalDiscussionSomehow` in a state that cannot be.
    pub open spec fn next_result(self) -> GotoSpeechResult {
        if self.current_new_point is None && self.first_response_block.len() == 0 {
            if self.upcoming_speeches.len() == 0 {
                GotoSpeechResult::NoSpeechToGoTo
            } else {
                GotoSpeechResult::IllegalDiscussionSomehow
            }
        } else if self.current_new_point is None && self.past_speeches.len() == 0 {
            GotoSpeechResult::IllegalDiscussionSomehow
        } else if self.first_response_block.len() > self.pinned()
            || self.upcoming_speeches.len() > 0 {
            GotoSpeechResult::Success
        } else {
            GotoSpeechResult::NoSpeechToGoTo
        }
    }

    /// The discussion with what has the floor put back at the head of the
    /// waiting new points: the current new point with the first block behind
    /// it. Where no new point has the floor nothing moves.
    pub open spec fn with_current_requeued(self) -> DiscussionView {
        match self.current_new_point {
            Some(point) => DiscussionView {
                current_new_point: None,
                first_response_block: Seq::empty(),
                upcoming_speeches: seq![
                    PointView { new_point: point, responses: self.first_response_block },
                ] + self.upcoming_speeches,
                ..self
            },
            None => self,
        }
    }

    /// The discussion after the floor has moved back by one speech.
    ///
    /// The last response of the last past point comes back to the head of
    /// the first block, or, where that point has no responses, the point
    /// itself comes back as the current new point. A new point that had the
    /// floor goes back to wait with its block. With nothing past, nothing
    /// changes.
    pub open spec fn after_previous(self) -> DiscussionView {
        if self.past_speeches.len() == 0 {
            self
        } else {
            let last = self.past_speeches.last();
            let earlier = self.past_speeches.drop_last();
            let requeued = self.with_current_requeued();
            if last.responses.len() > 0 {
                DiscussionView {
                    first_response_block: seq![last.responses.last()]
                        + requeued.first_response_block,
                    past_speeches: earlier.push(
                        PointView {
                            new_point: last.new_point,
                            responses: last.responses.drop_last(),
                        },
                    ),
                    ..requeued
                }
            } else {
                DiscussionView {
                    current_new_point: Some(last.new_point),
                    past_speeches: earlier,
                    ..requeued
                }
            }
        }
    }

    /// Whether a speech that is asked for can be taken. A response is
    /// refused only where the discussion holds no speech at all.
    pub open spec fn can_take(self, is_response: bool) -> bool {
        ||| !is_response
        ||| self.current_new_point is Some
        ||| self.first_response_block.len() > 0
        ||| self.upcoming_speeches.len() > 0
        ||| self.past_speeches.len() > 0
    }

    /// Whether somebody of that name is registered.
    pub open spec fn has_speaker(self, name: Seq<char>) -> bool {
        exists|i: int| 0 <= i < self.speakers.len() && (#[trigger] self.speakers[i]).name == name
    }

    /// The registry with a speaker of that name in it: as it is where it
    /// has one, and else with a new one at its end, who has not spoken.
    pub open spec fn with_speaker(self, name: Seq<char>) -> Seq<SpeakerView> {
        if self.has_speaker(name) {
            self.speakers
        } else {
            self.speakers.push(
                SpeakerView {
                    name: name,
                    aliases: Set::empty(),
                    total_speaking_time: 0,
                    speeches_given: 0,
                },
            )
        }
    }

    /// Where the speaker of that name stands in `with_speaker(name)`: where
    /// the registry has them, or at its end where the name is new.
    pub open spec fn speaker_index(self, name: Seq<char>) -> int {
        if self.has_speaker(name) {
            choose|i: int| 0 <= i < self.speakers.len() && (#[trigger] self.speakers[i]).name == name
        } else {
            self.speakers.len() as int
        }
    }

    /// The speech that is taken when one is asked for: of the speaker of
    /// that name, of no time yet, and with the count of speeches taken so
    /// far as its tiebreak. With nobody on the floor it is a new point
    /// whatever was asked for.
    pub open spec fn next_speech(self, name: Seq<char>, is_response: bool) -> Speech {
        Speech {
            speaker: self.speaker_index(name) as usize,
            duration: 0,
            is_response: is_response && !self.is_idle(),
            order_tiebreak: self.speeches_added as u64,
        }
    }

    /// The discussion with one more speech, before any resort.
    ///
    /// The speaker is registered where the name is new, and has one more
    /// speech to their name. With somebody on the floor, a response goes to
    /// the end of the first block and a new point to the end of the waiting
    /// ones. With nobody on the floor the speech takes it.
    pub open spec fn with_speech(self, name: Seq<char>, is_response: bool) -> DiscussionView {
        let speakers = self.with_speaker(name);
        let who = self.speaker_index(name);
        let speech = self.next_speech(name, is_response);
        let counted = DiscussionView {
            speakers: speakers.update(
                who,
                SpeakerView { speeches_given: speakers[who].speeches_given + 1, ..speakers[who] },
            ),
            speeches_added: self.speeches_added + 1,
            ..self
        };
        if speech.is_response {
            DiscussionView {
                first_response_block: self.first_response_block.push(speech),
                ..counted
            }
        } else if self.is_idle() {
            DiscussionView { current_new_point: Some(speech), ..counted }
        } else {
            DiscussionView {
                upcoming_speeches: self.upcoming_speeches.push(
                    PointView { new_point: speech, responses: Seq::empty() },
                ),
                ..counted
            }
        }
    }

    /// Whether the discussion holds `speech`: on the floor, among the
    /// responses to it, among the speeches that wait, or among those done.
    pub open spec fn holds(self, speech: Speech) -> bool {
        ||| self.current_new_point == Some(speech)
        ||| self.first_response_block.contains(speech)
        ||| queue_holds(self.upcoming_speeches, speech)
        ||| queue_holds(self.past_speeches, speech)
    }

    /// The speech that is being given, if any: the current new point, or
    /// else the first response of the first block.
    pub open spec fn speaking(self) -> Option<Speech> {
        match self.current_new_point {
            Some(point) => Some(point),
            None => if self.first_response_block.len() > 0 {
                Some(self.first_response_block[0])
            } else {
                None
            },
        }
    }

    /// The registry with one more second on the record at `who`.
    pub open spec fn with_second_for(self, who: int) -> Seq<SpeakerView> {
        self.speakers.update(
            who,
            SpeakerView {
                total_speaking_time: self.speakers[who].total_speaking_time + 1,
                ..self.speakers[who]
            },
        )
    }

    /// The discussion one second later, before any resort.
    ///
    /// A paused discussion stays as it is. Otherwise the speech that is
    /// being given and its speaker get one more second, and so does the
    /// discussion; with nobody on the floor the discussion gets its second
    /// only where it counts idle time.
    pub open spec fn after_second(self) -> DiscussionView {
        if self.paused {
            self
        } else {
            match self.speaking() {
                Some(speech) => {
                    let longer = Speech { duration: (speech.duration + 1) as u64, ..speech };
                    let charged = DiscussionView {
                        speakers: self.with_second_for(speech.speaker as int),
                        duration: self.duration + 1,
                        ..self
                    };
                    if self.current_new_point is Some {
                        DiscussionView { current_new_point: Some(longer), ..charged }
                    } else {
                        DiscussionView {
                            first_response_block: self.first_response_block.update(0, longer),
                            ..charged
                        }
                    }
                },
                None => if self.count_idle_time {
                    DiscussionView { duration: self.duration + 1, ..self }
                } else {
                    self
                },
            }
        }
    }

    /// The discussion with its waiting speeches put in order where the mode
    /// asks for it: under `FirstComeFirstServe` speeches stay where they
    /// were put.
    pub open spec fn settles_to(self, settled: DiscussionView) -> bool {
        if self.priority_mode == PriorityMode::FirstComeFirstServe {
            settled == self
        } else {
            settled.is_resort_of(self)
        }
    }

    /// The discussion after a speech was asked for under
    /// `FirstComeFirstServe`: with the speech where it can be taken, and
    /// else as it was.
    pub open spec fn after_request(self, name: Seq<char>, is_response: bool) -> DiscussionView {
        if self.can_take(is_response) {
            self.with_speech(name, is_response)
        } else {
            self
        }
    }

    /// The new points that have the floor or wait for it, in speaking
    /// order.
    pub open spec fn new_points(self) -> Seq<Speech> {
        (match self.current_new_point {
            Some(point) => seq![point],
            None => Seq::empty(),
        }) + Seq::new(
            self.upcoming_speeches.len(),
            |i: int| self.upcoming_speeches[i].new_point,
        )
    }

    /// The speeches stand as they came: the new points in the order of
    /// their coming, the responses to what is being given in the order of
    /// theirs, and no response behind a new point that waits.
    pub open spec fn in_arrival_order(self) -> bool {
        &&& tiebreaks_rise(self.new_points())
        &&& tiebreaks_rise(self.first_response_block)
        &&& forall|i: int|
            0 <= i < self.upcoming_speeches.len() ==> (
            #[trigger] self.upcoming_speeches[i]).responses.len() == 0
    }
}

/// Whether `speech` is one of the new points of `queue` or one of the
/// responses to them.
pub open spec fn queue_holds(queue: Seq<PointView>, speech: Speech) -> bool {
    exists|i: int|
        0 <= i < queue.len() && ((#[trigger] queue[i]).new_point == speech
            || queue[i].responses.contains(speech))
}

/// A discussion in which nobody has asked to speak.
pub open spec fn fresh_discussion() -> DiscussionView {
    DiscussionView {
        speakers: Seq::empty(),
        current_new_point: None,
        first_response_block: Seq::empty(),
        upcoming_speeches: Seq::empty(),
        past_speeches: Seq::empty(),
        duration: 0,
        paused: false,
        count_idle_time: true,
        speeches_added: 0,
        priority_mode: PriorityMode::FirstComeFirstServe,
    }
}

/// Each speech came later than the one before it.
pub open spec fn tiebreaks_rise(speeches: Seq<Speech>) -> bool {
    forall|i: int, j: int|
        #![trigger speeches[i], speeches[j]]
        0 <= i < j < speeches.len() ==> speeches[i].order_tiebreak < speeches[j].order_tiebreak
}

/// The discussion after speeches were asked for one after the other, each
/// by the name of its speaker and by whether a response was asked for.
pub open spec fn after_requests(
    discussion: DiscussionView,
    requests: Seq<(Seq<char>, bool)>,
) -> DiscussionView
    decreases requests.len(),
{
    if requests.len() == 0 {
        discussion
    } else {
        after_requests(discussion, requests.drop_last()).after_request(
            requests.last().0,
            requests.last().1,
        )
    }
}

} // verus!
