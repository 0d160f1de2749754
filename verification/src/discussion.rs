//! The discussion engine: who speaks now, who speaks next, and who has
//! spoken.

pub mod laws;
pub mod model;
pub mod sound;
pub mod tiebreaks;

use crate::discussion::laws::{
    lemma_after_second_keeps_wf, lemma_next_keeps_wf, lemma_previous_keeps_wf,
    lemma_resort_in_order, lemma_resort_keeps_wf, lemma_resort_of_ordered, lemma_speaker_index,
    lemma_with_speech_keeps_wf,
};
use crate::discussion::model::{
    blocks_sorted, more_pressing, point_key, point_view, queue_view, speakers_view, speech_key,
    DiscussionView, PointView,
};
use crate::speech::{Speaker, SpeakerView, Speech};
use crate::stable_order::{is_stable_sort_of, lemma_stable_insert};
use std::collections::VecDeque;
use vstd::prelude::*;

verus! {

/// The rule by which waiting speeches are ordered.
#[derive(Debug, Clone, Copy, PartialEq, Eq, Structural)]
pub enum PriorityMode {
    /// Whoever asked first speaks first.
    FirstComeFirstServe,
    /// Whoever has spoken least speaks first; ties keep their order.
    FavourBriefest,
}

/// How an attempt to move to the next speech ended.
#[derive(Debug, Clone, Copy, PartialEq, Eq, Structural)]
pub enum GotoSpeechResult {
    /// A speech has the floor.
    Success,
    /// Nobody has the floor, and no speech waits for it.
    NoSpeechToGoTo,
    /// The discussion was in a state that cannot be, and was left in it.
    IllegalDiscussionSomehow,
}

/// Why a speech was not taken.
#[derive(Debug, Clone, Copy, PartialEq, Eq, Structural)]
pub enum AddSpeechError {
    /// A response was asked for in a discussion that holds no speech at all.
    NothingToRespondTo,
}

/// The responses to one new point, in speaking order.
pub type ResponseBlock = VecDeque<Speech>;

/// A new point and the responses to it.
pub type NewPointThenResponseBlock = (Speech, ResponseBlock);

/// New points with their responses, in speaking order.
pub type ListOfSpeeches = VecDeque<NewPointThenResponseBlock>;

/// A moderated discussion.
///
/// The speech being given is `current_new_point`, or else the first of
/// `first_response_block`. The block holds the responses to the point last
/// given; `upcoming_speeches` wait behind it and `past_speeches` are done.
/// Times are whole seconds.
#[derive(Debug, Clone, PartialEq, Eq)]
pub struct Discussion {
    /// One record for each name that has asked to speak.
    pub speakers: Vec<Speaker>,
    pub current_new_point: Option<Speech>,
    pub first_response_block: ResponseBlock,
    pub upcoming_speeches: ListOfSpeeches,
    pub past_speeches: ListOfSpeeches,
    pub duration: u64,
    pub paused: bool,
    /// Whether `duration` goes on while nobody has the floor.
    pub count_idle_time: bool,
    /// How many speeches were ever taken; the next speech's tiebreak.
    pub speeches_added: u64,
    /// Changed through `set_priority_mode`, which puts the order right.
    pub priority_mode: PriorityMode,
}

impl View for Discussion {
    type V = DiscussionView;

    open spec fn view(&self) -> DiscussionView {
        DiscussionView {
            speakers: speakers_view(self.speakers@),
            current_new_point: self.current_new_point,
            first_response_block: self.first_response_block@,
            upcoming_speeches: queue_view(self.upcoming_speeches@),
            past_speeches: queue_view(self.past_speeches@),
            duration: self.duration as nat,
            paused: self.paused,
            count_idle_time: self.count_idle_time,
            speeches_added: self.speeches_added as nat,
            priority_mode: self.priority_mode,
        }
    }
}

/// Whether `a` is to speak before `b` under `mode`.
pub fn is_more_pressing(
    mode: &PriorityMode,
    speakers: &Vec<Speaker>,
    a: &Speech,
    b: &Speech,
) -> (yes: bool)
    requires
        a.speaker < speakers.len(),
        b.speaker < speakers.len(),
    ensures
        yes == more_pressing(*mode, speakers_view(speakers@), *a, *b),
{
    match mode {
        PriorityMode::FirstComeFirstServe => a.order_tiebreak < b.order_tiebreak,
        PriorityMode::FavourBriefest => speakers[a.speaker].total_speaking_time
            < speakers[b.speaker].total_speaking_time,
    }
}

impl Discussion {
    /// See `DiscussionView::wf`.
    pub open spec fn wf(&self) -> bool {
        self@.wf()
    }

    /// A discussion in which nobody has asked to speak: first come, first
    /// served, running, and counting the time while the floor is empty.
    pub fn new() -> (discussion: Self)
        ensures
            discussion.wf(),
            discussion@ == (DiscussionView {
                speakers: Seq::empty(),
                current_new_point: None,
                first_response_block: Seq::empty(),
                upcoming_speeches: Seq::empty(),
                past_speeches: Seq::empty(),
                duration: 0,
                paused: false,
                count_idle_time: true,
                speeches_added: 0,
                priority_mode: PriorityMode::FirstComeFirstServe,
            }),
    {
        let discussion = Discussion {
            speakers: Vec::new(),
            current_new_point: None,
            first_response_block: VecDeque::new(),
            upcoming_speeches: VecDeque::new(),
            past_speeches: VecDeque::new(),
            duration: 0,
            paused: false,
            count_idle_time: true,
            speeches_added: 0,
            priority_mode: PriorityMode::FirstComeFirstServe,
        };
        assert(discussion@.speakers =~= Seq::empty());
        assert(discussion@.upcoming_speeches =~= Seq::empty());
        assert(discussion@.past_speeches =~= Seq::empty());
        discussion
    }

    /// Puts the responses of one block in order under `mode`, by insertion:
    /// each response goes behind the last one that it is not more pressing
    /// than.
    pub fn sort_response_block(
        block: &mut ResponseBlock,
        mode: &PriorityMode,
        speakers: &Vec<Speaker>,
    )
        requires
            forall|i: int|
                0 <= i < old(block)@.len() ==> (#[trigger] old(block)@[i]).speaker
                    < speakers.len(),
        ensures
            is_stable_sort_of(
                final(block)@,
                old(block)@,
                speech_key(*mode, speakers_view(speakers@)),
            ),
    {
        let ghost source = block@;
        let ghost key = speech_key(*mode, speakers_view(speakers@));
        let ghost mut done: int = 0;
        let mut tmp1: ResponseBlock = VecDeque::new();
        assert(source.take(0) =~= tmp1@ && block@ =~= source.skip(0));
        loop
            invariant_except_break
                0 <= done <= source.len(),
                block@ == source.skip(done),
                key == speech_key(*mode, speakers_view(speakers@)),
                is_stable_sort_of(tmp1@, source.take(done), key),
                forall|i: int|
                    0 <= i < source.len() ==> (#[trigger] source[i]).speaker < speakers.len(),
                forall|i: int|
                    0 <= i < tmp1@.len() ==> (#[trigger] tmp1@[i]).speaker < speakers.len(),
            ensures
                is_stable_sort_of(block@, source, key),
            decreases source.len() - done,
        {
            match block.pop_front() {
                Some(response) => {
                    assert(response == source[done]);
                    let ghost placed = tmp1@;
                    let mut tmp2: ResponseBlock = VecDeque::new();
                    loop
                        invariant
                            placed == tmp1@ + tmp2@,
                            response.speaker < speakers.len(),
                            key == speech_key(*mode, speakers_view(speakers@)),
                            forall|i: int|
                                0 <= i < placed.len() ==> (#[trigger] placed[i]).speaker
                                    < speakers.len(),
                            forall|j: int|
                                0 <= j < tmp2@.len() ==> key(response) < key(#[trigger] tmp2@[j]),
                        ensures
                            placed == tmp1@ + tmp2@,
                            forall|j: int|
                                0 <= j < tmp2@.len() ==> key(response) < key(#[trigger] tmp2@[j]),
                            tmp1@.len() > 0 ==> key(tmp1@.last()) <= key(response),
                        decreases tmp1@.len(),
                    {
                        let ghost front = tmp1@;
                        let ghost back = tmp2@;
                        match tmp1.pop_back() {
                            Some(tmp1_back) => {
                                assert(tmp1_back == placed[front.len() - 1]);
                                if is_more_pressing(mode, speakers, &response, &tmp1_back) {
                                    tmp2.push_front(tmp1_back);
                                    assert(tmp1@ + tmp2@ =~= placed);
                                } else {
                                    tmp1.push_back(tmp1_back);
                                    assert(tmp1@ =~= front);
                                    break ;
                                }
                            },
                            None => {
                                break ;
                            },
                        }
                    }
                    proof {
                        lemma_stable_insert(tmp1@, tmp2@, response, source.take(done), key);
                        assert(source.take(done).push(response) =~= source.take(done + 1));
                        assert(block@ =~= source.skip(done + 1));
                    }
                    let ghost front = tmp1@;
                    let ghost back = tmp2@;
                    tmp1.push_back(response);
                    tmp1.append(&mut tmp2);
                    proof {
                        assert(tmp1@ =~= front + seq![response] + back);
                        assert forall|i: int| 0 <= i < tmp1@.len() implies (#[trigger] tmp1@[i]).speaker
                            < speakers.len() by {
                            if i < front.len() {
                                assert(tmp1@[i] == placed[i]);
                            } else if i > front.len() {
                                assert(tmp1@[i] == placed[i - 1]);
                            }
                        }
                        done = done + 1;
                    }
                },
                None => {
                    let ghost sorted = tmp1@;
                    proof {
                        assert(source.take(done) =~= source);
                    }
                    block.append(&mut tmp1);
                    assert(block@ =~= sorted);
                    break ;
                },
            }
        }
    }

    /// Puts every waiting speech where the priority mode wants it. The
    /// speech that is being given does not move. Responses are ordered
    /// within their block and stay behind their new point; new points are
    /// ordered among themselves, each going behind the last one that it is
    /// not more pressing than.
    pub fn resort_speaking_order(&mut self)
        requires
            old(self).wf(),
        ensures
            final(self).wf(),
            final(self)@.is_resort_of(old(self)@),
            final(self)@.in_order(),
            old(self)@.in_order() ==> final(self)@ == old(self)@,
    {
        let ghost source = self@;
        let ghost key = speech_key(self.priority_mode, speakers_view(self.speakers@));
        let ghost pkey = point_key(self.priority_mode, speakers_view(self.speakers@));
        let ghost source_block = self.first_response_block@;

        // The responses to the point last given.
        if self.current_new_point.is_none() {
            match self.first_response_block.pop_front() {
                Some(speaking) => {
                    assert(self.first_response_block@ =~= source_block.skip(1));
                    assert forall|i: int| 0 <= i < self.first_response_block@.len() implies (
                    #[trigger] self.first_response_block@[i]).speaker < self.speakers.len() by {
                        assert(source.speech_ok(source_block[i + 1], true));
                    }
                    Self::sort_response_block(
                        &mut self.first_response_block,
                        &self.priority_mode,
                        &self.speakers,
                    );
                    let ghost rest = self.first_response_block@;
                    self.first_response_block.push_front(speaking);
                    assert(self.first_response_block@.skip(1) =~= rest);
                },
                None => {
                    assert(self.first_response_block@.skip(0) =~= source_block.skip(0));
                    assert(source_block.skip(0) =~= Seq::<Speech>::empty());
                },
            }
        } else {
            assert forall|i: int| 0 <= i < self.first_response_block@.len() implies (
            #[trigger] self.first_response_block@[i]).speaker < self.speakers.len() by {
                assert(source.speech_ok(source_block[i], true));
            }
            assert(source_block.skip(0) =~= source_block);
            Self::sort_response_block(
                &mut self.first_response_block,
                &self.priority_mode,
                &self.speakers,
            );
            assert(self.first_response_block@.skip(0) =~= self.first_response_block@);
        }
        let ghost sorted_block = self.first_response_block@;

        // The new points that wait, each with its responses.
        let ghost source_queue = source.upcoming_speeches;
        let ghost mut blocks_done: Seq<PointView> = Seq::empty();
        let ghost mut done: int = 0;
        let mut tmp1: ListOfSpeeches = VecDeque::new();
        assert(queue_view(tmp1@) =~= blocks_done);
        assert(queue_view(self.upcoming_speeches@) =~= source_queue.skip(0));
        assert(source_queue.take(0) =~= Seq::<PointView>::empty());
        loop
            invariant_except_break
                0 <= done <= source_queue.len(),
                queue_view(self.upcoming_speeches@) == source_queue.skip(done),
                is_stable_sort_of(queue_view(tmp1@), blocks_done, pkey),
            invariant
                source == old(self)@,
                source.wf(),
                source_queue == source.upcoming_speeches,
                key == speech_key(source.priority_mode, source.speakers),
                pkey == point_key(source.priority_mode, source.speakers),
                self.speakers == old(self).speakers,
                self.current_new_point == old(self).current_new_point,
                self.first_response_block@ == sorted_block,
                self.past_speeches == old(self).past_speeches,
                self.duration == old(self).duration,
                self.paused == old(self).paused,
                self.count_idle_time == old(self).count_idle_time,
                self.speeches_added == old(self).speeches_added,
                self.priority_mode == old(self).priority_mode,
                blocks_done.len() == done,
                blocks_sorted(
                    blocks_done,
                    source_queue.take(done),
                    source.priority_mode,
                    source.speakers,
                ),
                forall|i: int|
                    0 <= i < tmp1@.len() ==> (#[trigger] tmp1@[i]).0.speaker < self.speakers.len(),
            ensures
                done == source_queue.len(),
                is_stable_sort_of(queue_view(self.upcoming_speeches@), blocks_done, pkey),
            decreases source_queue.len() - done,
        {
            let ghost waiting = self.upcoming_speeches@;
            match self.upcoming_speeches.pop_front() {
                Some((new_point, mut response_block)) => {
                    proof {
                        assert(queue_view(waiting).len() == waiting.len());
                        assert(source_queue.skip(done).len() == source_queue.len() - done);
                        assert(point_view(waiting[0]) == queue_view(waiting)[0]);
                        assert(queue_view(waiting)[0] == source_queue.skip(done)[0]);
                        assert(source.point_ok(source_queue[done]));
                        assert forall|i: int| 0 <= i < waiting.len() - 1 implies queue_view(
                            self.upcoming_speeches@,
                        )[i] == source_queue.skip(done + 1)[i] by {
                            assert(self.upcoming_speeches@[i] == waiting[i + 1]);
                            assert(queue_view(waiting)[i + 1] == source_queue.skip(done)[i + 1]);
                        }
                        assert(queue_view(self.upcoming_speeches@) =~= source_queue.skip(done + 1));
                        assert forall|i: int| 0 <= i < response_block@.len() implies (
                        #[trigger] response_block@[i]).speaker < self.speakers.len() by {
                            assert(source.speech_ok(source_queue[done].responses[i], true));
                        }
                    }
                    Self::sort_response_block(
                        &mut response_block,
                        &self.priority_mode,
                        &self.speakers,
                    );
                    let ghost point = PointView { new_point: new_point, responses: response_block@ };
                    let ghost placed = tmp1@;
                    let mut tmp2: ListOfSpeeches = VecDeque::new();
                    assert(queue_view(placed) =~= queue_view(tmp1@) + queue_view(tmp2@));
                    loop
                        invariant
                            queue_view(placed) == queue_view(tmp1@) + queue_view(tmp2@),
                            placed.len() == tmp1@.len() + tmp2@.len(),
                            new_point.speaker < self.speakers.len(),
                            point.new_point == new_point,
                            pkey == point_key(self.priority_mode, speakers_view(self.speakers@)),
                            forall|i: int|
                                0 <= i < tmp1@.len() ==> (#[trigger] tmp1@[i]).0.speaker
                                    < self.speakers.len(),
                            forall|i: int|
                                0 <= i < tmp2@.len() ==> (#[trigger] tmp2@[i]).0.speaker
                                    < self.speakers.len(),
                            forall|j: int|
                                0 <= j < tmp2@.len() ==> pkey(point) < pkey(
                                    #[trigger] queue_view(tmp2@)[j],
                                ),
                        ensures
                            tmp1@.len() > 0 ==> pkey(queue_view(tmp1@).last()) <= pkey(point),
                        decreases tmp1@.len(),
                    {
                        let ghost front = tmp1@;
                        let ghost back = tmp2@;
                        match tmp1.pop_back() {
                            Some(tmp1_back) => {
                                assert(tmp1_back == front[front.len() - 1]);
                                if is_more_pressing(
                                    &self.priority_mode,
                                    &self.speakers,
                                    &new_point,
                                    &tmp1_back.0,
                                ) {
                                    tmp2.push_front(tmp1_back);
                                    proof {
                                        assert(queue_view(tmp1@) + queue_view(tmp2@) =~= queue_view(
                                            front,
                                        ) + queue_view(back));
                                        assert forall|j: int| 0 <= j < tmp2@.len() implies pkey(
                                            point,
                                        ) < pkey(#[trigger] queue_view(tmp2@)[j]) by {
                                            if j > 0 {
                                                assert(queue_view(tmp2@)[j] == queue_view(back)[j
                                                    - 1]);
                                            }
                                        }
                                    }
                                } else {
                                    tmp1.push_back(tmp1_back);
                                    assert(tmp1@ =~= front);
                                    break ;
                                }
                            },
                            None => {
                                break ;
                            },
                        }
                    }
                    let ghost front = tmp1@;
                    let ghost back = tmp2@;
                    proof {
                        assert(queue_view(front) + queue_view(back) == queue_view(placed));
                        lemma_stable_insert(
                            queue_view(front),
                            queue_view(back),
                            point,
                            blocks_done,
                            pkey,
                        );
                    }
                    tmp1.push_back((new_point, response_block));
                    tmp1.append(&mut tmp2);
                    proof {
                        assert(tmp1@ =~= front.push(tmp1@[front.len() as int]) + back);
                        assert(queue_view(tmp1@) =~= queue_view(front) + seq![point] + queue_view(
                            back,
                        ));
                        assert(source_queue.take(done + 1) =~= source_queue.take(done).push(
                            source_queue[done],
                        ));
                        let next_done = blocks_done.push(point);
                        assert forall|i: int| 0 <= i < done + 1 implies (
                        #[trigger] next_done[i]).new_point == source_queue.take(done + 1)[i].new_point
                            && is_stable_sort_of(
                            next_done[i].responses,
                            source_queue.take(done + 1)[i].responses,
                            key,
                        ) by {
                            if i < done {
                                assert(next_done[i] == blocks_done[i]);
                                assert(source_queue.take(done + 1)[i] == source_queue.take(done)[i]);
                            }
                        }
                        blocks_done = next_done;
                        done = done + 1;
                    }
                },
                None => {
                    let ghost sorted_queue = tmp1@;
                    proof {
                        assert(queue_view(waiting).len() == 0);
                    }
                    self.upcoming_speeches.append(&mut tmp1);
                    assert(self.upcoming_speeches@ =~= sorted_queue);
                    break ;
                },
            }
        }
        proof {
            assert(source_queue.take(done) =~= source_queue);
            assert(blocks_sorted(
                blocks_done,
                source.upcoming_speeches,
                source.priority_mode,
                source.speakers,
            ));
            assert(self@.is_resort_of(source));
            lemma_resort_keeps_wf(self@, source);
            lemma_resort_in_order(self@, source);
            if source.in_order() {
                lemma_resort_of_ordered(self@, source);
            }
        }
    }

    /// Gives the floor to the first waiting new point, with its responses.
    fn take_next_point(&mut self) -> (taken: bool)
        requires
            old(self).current_new_point is None,
        ensures
            taken == (old(self).upcoming_speeches@.len() > 0),
            taken ==> final(self)@ == old(self)@.with_next_point_current(old(self)@.past_speeches),
            !taken ==> final(self)@ == old(self)@,
    {
        let ghost waiting = self.upcoming_speeches@;
        match self.upcoming_speeches.pop_front() {
            Some((next_np, next_rb)) => {
                self.current_new_point = Some(next_np);
                self.first_response_block = next_rb;
                proof {
                    assert(point_view(waiting[0]) == queue_view(waiting)[0]);
                    assert(queue_view(self.upcoming_speeches@) =~= queue_view(waiting).skip(1));
                }
                true
            },
            None => false,
        }
    }

    /// Moves the floor on by one speech.
    ///
    /// From a new point the floor goes to its first response, or, where it
    /// has none, to the next new point. From a response it goes to the next
    /// response, or, after the last, to the next new point. What was being
    /// given joins the past. In a state that cannot be, nothing is changed
    /// and `IllegalDiscussionSomehow` is reported.
    pub fn goto_next_speech(&mut self) -> (result: GotoSpeechResult)
        ensures
            final(self)@ == old(self)@.after_next(),
            result == old(self)@.next_result(),
            old(self).wf() ==> final(self).wf() && result
                != GotoSpeechResult::IllegalDiscussionSomehow,
    {
        let ghost before = self@;
        proof {
            if before.wf() {
                lemma_next_keeps_wf(before);
            }
        }
        match self.current_new_point.take() {
            Some(old_cnp) => {
                let ghost past = self.past_speeches@;
                self.past_speeches.push_back((old_cnp, VecDeque::new()));
                proof {
                    assert(queue_view(self.past_speeches@) =~= queue_view(past).push(
                        PointView { new_point: old_cnp, responses: Seq::empty() },
                    ));
                }
                if self.first_response_block.len() > 0 {
                    GotoSpeechResult::Success
                } else if self.take_next_point() {
                    GotoSpeechResult::Success
                } else {
                    GotoSpeechResult::NoSpeechToGoTo
                }
            },
            None => {
                if self.first_response_block.len() == 0 {
                    if self.upcoming_speeches.len() == 0 {
                        GotoSpeechResult::NoSpeechToGoTo
                    } else {
                        GotoSpeechResult::IllegalDiscussionSomehow
                    }
                } else {
                    let ghost past = self.past_speeches@;
                    match self.past_speeches.pop_back() {
                        Some((previous_np, mut previous_response_block)) => {
                            let ghost block = self.first_response_block@;
                            let ghost responses = previous_response_block@;
                            match self.first_response_block.pop_front() {
                                Some(current_response) => {
                                    previous_response_block.push_back(current_response);
                                    self.past_speeches.push_back(
                                        (previous_np, previous_response_block),
                                    );
                                },
                                None => {},
                            }
                            proof {
                                assert(point_view(past[past.len() - 1]) == queue_view(past).last());
                                assert(self.first_response_block@ =~= block.skip(1));
                                assert(queue_view(self.past_speeches@) =~= queue_view(
                                    past,
                                ).drop_last().push(
                                    PointView {
                                        new_point: previous_np,
                                        responses: responses.push(block[0]),
                                    },
                                ));
                            }
                            if self.first_response_block.len() > 0 {
                                GotoSpeechResult::Success
                            } else if self.take_next_point() {
                                GotoSpeechResult::Success
                            } else {
                                GotoSpeechResult::NoSpeechToGoTo
                            }
                        },
                        None => GotoSpeechResult::IllegalDiscussionSomehow,
                    }
                }
            },
        }
    }

    /// Moves the floor back by one speech; at the beginning it does nothing.
    ///
    /// The speech last given comes back: the last response of the last past
    /// point, or that point itself where it has no responses. A new point
    /// that had the floor goes back to the head of the waiting ones, with
    /// its responses.
    pub fn goto_previous_speech(&mut self)
        ensures
            final(self)@ == old(self)@.after_previous(),
            old(self).wf() ==> final(self).wf(),
    {
        let ghost before = self@;
        let ghost past = self.past_speeches@;
        proof {
            if before.wf() {
                lemma_previous_keeps_wf(before);
            }
        }
        match self.past_speeches.pop_back() {
            Some((most_recent_new_point, mut most_recent_response_block)) => {
                let ghost responses = most_recent_response_block@;
                let ghost waiting = self.upcoming_speeches@;
                let ghost block = self.first_response_block@;
                proof {
                    assert(point_view(past[past.len() - 1]) == queue_view(past).last());
                    assert(queue_view(self.past_speeches@) =~= queue_view(past).drop_last());
                }
                // A new point that has the floor waits again, with its responses.
                match self.current_new_point.take() {
                    Some(current_new_point) => {
                        let mut current_block: ResponseBlock = VecDeque::new();
                        std::mem::swap(&mut self.first_response_block, &mut current_block);
                        self.upcoming_speeches.push_front((current_new_point, current_block));
                        proof {
                            assert(queue_view(self.upcoming_speeches@) =~= seq![
                                PointView { new_point: current_new_point, responses: block },
                            ] + queue_view(waiting));
                        }
                    },
                    None => {},
                }
                assert(self@ == (DiscussionView {
                    past_speeches: queue_view(past).drop_last(),
                    ..before.with_current_requeued()
                }));
                match most_recent_response_block.pop_back() {
                    Some(most_recent_response) => {
                        let ghost earlier = self.past_speeches@;
                        self.first_response_block.push_front(most_recent_response);
                        self.past_speeches.push_back(
                            (most_recent_new_point, most_recent_response_block),
                        );
                        proof {
                            assert(most_recent_response_block@ =~= responses.drop_last());
                            assert(queue_view(self.past_speeches@) =~= queue_view(earlier).push(
                                PointView {
                                    new_point: most_recent_new_point,
                                    responses: responses.drop_last(),
                                },
                            ));
                        }
                    },
                    None => {
                        self.current_new_point = Some(most_recent_new_point);
                    },
                }
            },
            None => {},
        }
    }

    /// Changes the priority mode and puts the waiting speeches in the order
    /// that the new mode wants.
    pub fn set_priority_mode(&mut self, mode: PriorityMode)
        requires
            old(self).wf(),
        ensures
            final(self).wf(),
            final(self)@.is_resort_of(DiscussionView { priority_mode: mode, ..old(self)@ }),
            final(self)@.in_order(),
    {
        self.priority_mode = mode;
        proof {
            assert forall|tiebreak: u64| #[trigger]
                self@.speeches_with_tiebreak(tiebreak) <= 1 by {
                assert(old(self)@.speeches_with_tiebreak(tiebreak) <= 1);
            }
        }
        self.resort_speaking_order();
    }

    /// Stops or starts the clock.
    pub fn set_paused(&mut self, paused: bool)
        ensures
            final(self)@ == (DiscussionView { paused: paused, ..old(self)@ }),
    {
        self.paused = paused;
    }

    /// Says whether the discussion's time goes on while nobody has the
    /// floor.
    pub fn set_count_idle_time(&mut self, count_idle_time: bool)
        ensures
            final(self)@ == (DiscussionView { count_idle_time: count_idle_time, ..old(self)@ }),
    {
        self.count_idle_time = count_idle_time;
    }

    /// Where the speaker of that name stands in the registry.
    fn find_speaker(&self, name: &String) -> (found: Option<usize>)
        ensures
            match found {
                Some(who) => who < self.speakers.len() && self.speakers[who as int].name@ == name@,
                None => !self@.has_speaker(name@),
            },
    {
        let mut i: usize = 0;
        while i < self.speakers.len()
            invariant
                i <= self.speakers.len(),
                forall|j: int| 0 <= j < i ==> (#[trigger] self@.speakers[j]).name != name@,
            decreases self.speakers.len() - i,
        {
            if self.speakers[i].name == *name {
                return Some(i);
            }
            i = i + 1;
        }
        None
    }

    /// Takes a speech of the speaker of that name.
    ///
    /// A response joins the responses to what is being given, a new point
    /// the waiting ones; with nobody on the floor the speech takes it. Under
    /// a mode other than `FirstComeFirstServe` the waiting speeches are then
    /// put in order. A response to nothing at all is refused, and nothing
    /// changes.
    pub fn add_new_speech(&mut self, speaker_name: String, is_response: bool) -> (result: Result<
        (),
        AddSpeechError,
    >)
        requires
            old(self).wf(),
            old(self).speeches_added < u64::MAX,
        ensures
            final(self).wf(),
            result is Ok <==> old(self)@.can_take(is_response),
            result is Err ==> result == Err::<(), AddSpeechError>(
                AddSpeechError::NothingToRespondTo,
            ) && final(self)@ == old(self)@,
            result is Ok ==> old(self)@.with_speech(speaker_name@, is_response).settles_to(
                final(self)@,
            ),
            old(self).priority_mode == PriorityMode::FirstComeFirstServe ==> final(self)@ == old(
                self,
            )@.after_request(speaker_name@, is_response),
    {
        let ghost before = self@;
        let ghost name = speaker_name@;
        let idle = self.current_new_point.is_none() && self.first_response_block.len() == 0;
        if is_response && idle && self.upcoming_speeches.len() == 0 && self.past_speeches.len()
            == 0 {
            return Err(AddSpeechError::NothingToRespondTo);
        }
        // The speaker of that name, registered now if the name is new.

        let who = match self.find_speaker(&speaker_name) {
            Some(who) => {
                assert(before.speakers[who as int].name == name);
                who
            },
            None => {
                self.speakers.push(Speaker::new(speaker_name));
                proof {
                    let last = self.speakers@.len() - 1;
                    assert(speakers_view(self.speakers@)[last] == self.speakers@[last]@);
                }
                self.speakers.len() - 1
            },
        };
        proof {
            assert(speakers_view(self.speakers@) =~= before.with_speaker(name));
            lemma_speaker_index(before, name, who as int);
            assert(who < before.speakers.len() ==> before.speakers[who as int].speeches_given
                <= before.speeches_added);
        }
        let ghost registered = self.speakers@;
        self.speakers[who].speeches_given = self.speakers[who].speeches_given + 1;
        proof {
            let speakers = before.with_speaker(name);
            assert(speakers_view(self.speakers@) =~= speakers.update(
                who as int,
                SpeakerView {
                    speeches_given: speakers[who as int].speeches_given + 1,
                    ..speakers[who as int]
                },
            ));
        }
        let new_speech = Speech {
            speaker: who,
            duration: 0,
            is_response: is_response && !idle,
            order_tiebreak: self.speeches_added,
        };
        self.speeches_added = self.speeches_added + 1;

        if is_response && !idle {
            self.first_response_block.push_back(new_speech);
        } else if idle {
            self.current_new_point = Some(new_speech);
        } else {
            let ghost waiting = self.upcoming_speeches@;
            self.upcoming_speeches.push_back((new_speech, VecDeque::new()));
            proof {
                assert(queue_view(self.upcoming_speeches@) =~= queue_view(waiting).push(
                    PointView { new_point: new_speech, responses: Seq::empty() },
                ));
            }
        }
        proof {
            assert(self@ == before.with_speech(name, is_response));
            lemma_with_speech_keeps_wf(before, name, is_response);
        }
        if self.priority_mode != PriorityMode::FirstComeFirstServe {
            self.resort_speaking_order();
        }
        Ok(())
    }

    /// Lets one second pass.
    ///
    /// While the discussion is paused nothing changes. Otherwise the second
    /// is charged to the speech that is being given, to its speaker and to
    /// the discussion, and under a mode other than `FirstComeFirstServe`
    /// the waiting speeches are put in order again. With nobody on the floor
    /// the discussion is charged only where it counts idle time.
    pub fn tick_clock(&mut self)
        requires
            old(self).wf(),
            !old(self).paused ==> old(self).duration < u64::MAX,
        ensures
            final(self).wf(),
            old(self).paused ==> *final(self) == *old(self),
            !old(self).paused ==> old(self)@.after_second().settles_to(final(self)@),
    {
        let ghost before = self@;
        if !self.paused {
            proof {
                lemma_after_second_keeps_wf(before);
            }
            let ghost speakers = self.speakers@;
            match &mut self.current_new_point {
                Some(current_new_point) => {
                    proof {
                        assert(before.speakers[current_new_point.speaker as int].total_speaking_time
                            <= before.duration);
                    }
                    current_new_point.tick_clock(&mut self.speakers[current_new_point.speaker]);
                    self.duration = self.duration + 1;
                    proof {
                        let who = before.current_new_point.unwrap().speaker as int;
                        assert(speakers_view(self.speakers@) =~= before.with_second_for(who));
                    }
                },
                None => {
                    let ghost block = self.first_response_block@;
                    match self.first_response_block.pop_front() {
                        Some(mut current_response) => {
                            proof {
                                assert(before.speech_ok(block[0], true));
                                assert(before.speakers[current_response.speaker as int].total_speaking_time
                                    <= before.duration);
                            }
                            current_response.tick_clock(
                                &mut self.speakers[current_response.speaker],
                            );
                            self.first_response_block.push_front(current_response);
                            self.duration = self.duration + 1;
                            proof {
                                let who = block[0].speaker as int;
                                assert(speakers_view(self.speakers@) =~= before.with_second_for(
                                    who,
                                ));
                                assert(self.first_response_block@ =~= block.update(
                                    0,
                                    current_response,
                                ));
                            }
                        },
                        None => {
                            if self.count_idle_time {
                                self.duration = self.duration + 1;
                            }
                        },
                    }
                },
            }
            assert(self@ == before.after_second());
            if self.priority_mode != PriorityMode::FirstComeFirstServe {
                self.resort_speaking_order();
            }
        }
    }
}

} // verus!
