//! What holds of the operations on a discussion, whatever its state.

use crate::discussion::model::{
    after_requests, blocks_sorted, fresh_discussion, point_key, queue_holds, tiebreaks_rise,
    DiscussionView, PointView,
};
use crate::discussion::tiebreaks::{
    lemma_after_second_keeps_tiebreaks, lemma_next_keeps_tiebreaks, lemma_no_tiebreak_ahead,
    lemma_previous_keeps_tiebreaks, lemma_resort_keeps_tiebreaks, lemma_with_speech_adds_tiebreak,
};
use crate::discussion::{GotoSpeechResult, PriorityMode};
use crate::speech::Speech;
use crate::stable_order::{
    is_stable_sort_of, lemma_stable_sort_members, lemma_stable_sort_unique, sorted_by_key,
};
use vstd::prelude::*;

verus! {

/// In a sound registry, the place of the speaker of a name is the one
/// place that bears the name.
pub proof fn lemma_speaker_index(discussion: DiscussionView, name: Seq<char>, who: int)
    requires
        discussion.speakers_ok(),
        0 <= who < discussion.with_speaker(name).len(),
        discussion.with_speaker(name)[who].name == name,
    ensures
        discussion.speaker_index(name) == who,
{
    let found = discussion.speaker_index(name);
    if discussion.has_speaker(name) {
        if found < who {
            assert(discussion.speakers[found].name != discussion.speakers[who].name);
        } else if who < found {
            assert(discussion.speakers[who].name != discussion.speakers[found].name);
        }
    } else if who < discussion.speakers.len() {
        assert(discussion.speakers[who].name == name);
    }
}

/// Taking a speech keeps a sound state sound, and registers one speaker at
/// most.
pub proof fn lemma_with_speech_keeps_wf(before: DiscussionView, name: Seq<char>, is_response: bool)
    requires
        before.wf(),
        before.speeches_added < u64::MAX,
        before.speakers.len() <= usize::MAX,
    ensures
        before.with_speech(name, is_response).wf(),
        before.with_speech(name, is_response).speakers.len() <= before.speakers.len() + 1,
{
    let after = before.with_speech(name, is_response);
    let speakers = before.with_speaker(name);
    let who = before.speaker_index(name);
    assert forall|tiebreak: u64| #[trigger] after.speeches_with_tiebreak(tiebreak) <= 1 by {
        lemma_with_speech_adds_tiebreak(before, name, is_response, tiebreak);
        assert(before.speeches_with_tiebreak(tiebreak) <= 1);
        if tiebreak == before.speeches_added {
            lemma_no_tiebreak_ahead(before, tiebreak);
        }
    }
    if before.has_speaker(name) {
        let i = choose|i: int| 0 <= i < before.speakers.len() && before.speakers[i].name == name;
        assert(speakers[i].name == name);
    } else {
        assert(speakers[before.speakers.len() as int].name == name);
    }
    assert(0 <= who < speakers.len() && speakers[who].name == name);
    assert(after.speakers.len() == speakers.len());
    assert forall|i: int, j: int| 0 <= i < j < after.speakers.len() implies (
    #[trigger] after.speakers[i]).name != (#[trigger] after.speakers[j]).name by {
        assert(after.speakers[i].name == speakers[i].name);
        assert(after.speakers[j].name == speakers[j].name);
        if j < before.speakers.len() {
            assert(before.speakers[i].name != before.speakers[j].name);
        } else {
            assert(before.speakers[i].name != name);
        }
    }
    assert forall|i: int| 0 <= i < after.speakers.len() implies (
    #[trigger] after.speakers[i]).total_speaking_time <= after.duration
        && after.speakers[i].speeches_given <= after.speeches_added by {
        if i < before.speakers.len() {
            assert(before.speakers[i].speeches_given <= before.speeches_added);
        }
    }
    assert forall|speech: Speech, role: bool| before.speech_ok(speech, role) implies after.speech_ok(
        speech,
        role,
    ) by {
        assert(after.speakers[speech.speaker as int].total_speaking_time
            == before.speakers[speech.speaker as int].total_speaking_time);
    }
    assert forall|i: int| 0 <= i < after.first_response_block.len() implies after.speech_ok(
        #[trigger] after.first_response_block[i],
        true,
    ) by {
        if i < before.first_response_block.len() {
            assert(before.speech_ok(before.first_response_block[i], true));
        }
    }
    assert forall|point: PointView| before.point_ok(point) implies after.point_ok(point) by {
        assert forall|r: int| 0 <= r < point.responses.len() implies after.speech_ok(
            #[trigger] point.responses[r],
            true,
        ) by {
            assert(before.speech_ok(point.responses[r], true));
        }
    }
    assert forall|i: int| 0 <= i < after.upcoming_speeches.len() implies after.point_ok(
        #[trigger] after.upcoming_speeches[i],
    ) by {
        if i < before.upcoming_speeches.len() {
            assert(before.point_ok(before.upcoming_speeches[i]));
        }
    }
    assert forall|i: int| 0 <= i < after.past_speeches.len() implies after.point_ok(
        #[trigger] after.past_speeches[i],
    ) by {
        assert(before.point_ok(before.past_speeches[i]));
    }
}

/// A second more keeps a sound state sound.
pub proof fn lemma_after_second_keeps_wf(before: DiscussionView)
    requires
        before.wf(),
        !before.paused ==> before.duration < u64::MAX,
    ensures
        before.after_second().wf(),
{
    let after = before.after_second();
    assert forall|tiebreak: u64| #[trigger] after.speeches_with_tiebreak(tiebreak) <= 1 by {
        lemma_after_second_keeps_tiebreaks(before, tiebreak);
        assert(before.speeches_with_tiebreak(tiebreak) <= 1);
    }
    if after != before {
        assert forall|speech: Speech, role: bool| before.speech_ok(speech, role) implies after.speech_ok(
            speech,
            role,
        ) by {
            assert(after.speakers[speech.speaker as int].total_speaking_time
                >= before.speakers[speech.speaker as int].total_speaking_time);
        }
        assert forall|i: int| 0 <= i < after.speakers.len() implies (
        #[trigger] after.speakers[i]).total_speaking_time <= after.duration
            && after.speakers[i].speeches_given <= after.speeches_added by {
            assert(before.speakers[i].total_speaking_time <= before.duration);
        }
        assert forall|i: int, j: int| 0 <= i < j < after.speakers.len() implies (
        #[trigger] after.speakers[i]).name != (#[trigger] after.speakers[j]).name by {
            assert(before.speakers[i].name != before.speakers[j].name);
        }
        assert forall|i: int| 0 <= i < after.first_response_block.len() implies after.speech_ok(
            #[trigger] after.first_response_block[i],
            true,
        ) by {
            assert(before.speech_ok(before.first_response_block[i], true));
        }
        assert forall|point: PointView| before.point_ok(point) implies after.point_ok(point) by {
            assert forall|r: int| 0 <= r < point.responses.len() implies after.speech_ok(
                #[trigger] point.responses[r],
                true,
            ) by {
                assert(before.speech_ok(point.responses[r], true));
            }
        }
        assert forall|i: int| 0 <= i < after.upcoming_speeches.len() implies after.point_ok(
            #[trigger] after.upcoming_speeches[i],
        ) by {
            assert(before.point_ok(before.upcoming_speeches[i]));
        }
        assert forall|i: int| 0 <= i < after.past_speeches.len() implies after.point_ok(
            #[trigger] after.past_speeches[i],
        ) by {
            assert(before.point_ok(before.past_speeches[i]));
        }
    }
}

/// A speech that is taken gets a tiebreak above that of every speech that
/// the discussion holds, and the discussion then holds it and all it held.
pub proof fn lemma_tiebreaks_increase(
    before: DiscussionView,
    name: Seq<char>,
    is_response: bool,
    earlier: Speech,
)
    requires
        before.wf(),
        before.speeches_added < u64::MAX,
        before.holds(earlier),
    ensures
        earlier.order_tiebreak < before.next_speech(name, is_response).order_tiebreak,
        before.with_speech(name, is_response).holds(earlier),
        before.with_speech(name, is_response).holds(before.next_speech(name, is_response)),
{
    let after = before.with_speech(name, is_response);
    let taken = before.next_speech(name, is_response);
    if before.first_response_block.contains(earlier) {
        let i = choose|i: int|
            0 <= i < before.first_response_block.len() && before.first_response_block[i]
                == earlier;
        assert(before.speech_ok(before.first_response_block[i], true));
        assert(after.first_response_block[i] == earlier);
    }
    if queue_holds(before.upcoming_speeches, earlier) {
        let i = choose|i: int|
            0 <= i < before.upcoming_speeches.len() && ((
            #[trigger] before.upcoming_speeches[i]).new_point == earlier
                || before.upcoming_speeches[i].responses.contains(earlier));
        lemma_point_tiebreaks(before, before.upcoming_speeches[i], earlier);
        assert(after.upcoming_speeches[i] == before.upcoming_speeches[i]);
    }
    if queue_holds(before.past_speeches, earlier) {
        let i = choose|i: int|
            0 <= i < before.past_speeches.len() && ((
            #[trigger] before.past_speeches[i]).new_point == earlier
                || before.past_speeches[i].responses.contains(earlier));
        lemma_point_tiebreaks(before, before.past_speeches[i], earlier);
    }
    if taken.is_response {
        assert(after.first_response_block[before.first_response_block.len() as int] == taken);
    } else if !before.is_idle() {
        assert(after.upcoming_speeches[before.upcoming_speeches.len() as int].new_point == taken);
    }
}

/// A speech of a sound new point with its responses came before any speech
/// yet to come.
proof fn lemma_point_tiebreaks(discussion: DiscussionView, point: PointView, speech: Speech)
    requires
        discussion.point_ok(point),
        point.new_point == speech || point.responses.contains(speech),
    ensures
        speech.order_tiebreak < discussion.speeches_added,
{
    if point.new_point != speech {
        let r = choose|r: int| 0 <= r < point.responses.len() && point.responses[r] == speech;
        assert(discussion.speech_ok(point.responses[r], true));
    }
}

/// Moving on loses no speech and makes none.
pub proof fn lemma_next_keeps_speeches(before: DiscussionView, speech: Speech)
    ensures
        before.after_next().holds(speech) == before.holds(speech),
{
    if before.holds(speech) {
        lemma_next_holds(before, speech);
    }
    if before.after_next().holds(speech) {
        lemma_next_held(before, speech);
    }
}

/// Moving back loses no speech and makes none.
pub proof fn lemma_previous_keeps_speeches(before: DiscussionView, speech: Speech)
    ensures
        before.after_previous().holds(speech) == before.holds(speech),
{
    if before.holds(speech) {
        lemma_previous_holds(before, speech);
    }
    if before.after_previous().holds(speech) {
        lemma_previous_held(before, speech);
    }
}

/// What a discussion holds it holds after moving on.
proof fn lemma_next_holds(before: DiscussionView, speech: Speech)
    requires
        before.holds(speech),
    ensures
        before.after_next().holds(speech),
{
    let after = before.after_next();
    if after != before {
        let past = before.past_speeches.len() as int;
        if before.current_new_point == Some(speech) {
            assert(after.past_speeches[past].new_point == speech);
        } else if before.first_response_block.contains(speech) {
            let i = choose|i: int|
                0 <= i < before.first_response_block.len() && before.first_response_block[i]
                    == speech;
            if before.current_new_point is Some {
                assert(after.first_response_block[i] == speech);
            } else if i == 0 {
                let last = after.past_speeches[past - 1];
                assert(last.responses[last.responses.len() - 1] == speech);
            } else {
                assert(after.first_response_block[i - 1] == speech);
            }
        } else if queue_holds(before.upcoming_speeches, speech) {
            let i = choose|i: int|
                0 <= i < before.upcoming_speeches.len() && ((
                #[trigger] before.upcoming_speeches[i]).new_point == speech
                    || before.upcoming_speeches[i].responses.contains(speech));
            if after.upcoming_speeches == before.upcoming_speeches {
            } else if i > 0 {
                assert(after.upcoming_speeches[i - 1] == before.upcoming_speeches[i]);
            }
        } else {
            let i = choose|i: int|
                0 <= i < before.past_speeches.len() && ((
                #[trigger] before.past_speeches[i]).new_point == speech
                    || before.past_speeches[i].responses.contains(speech));
            let kept = after.past_speeches[i];
            assert(kept.new_point == before.past_speeches[i].new_point);
            if before.past_speeches[i].responses.contains(speech) {
                let r = choose|r: int|
                    0 <= r < before.past_speeches[i].responses.len()
                        && before.past_speeches[i].responses[r] == speech;
                assert(kept.responses[r] == speech);
            }
        }
    }
}

/// What a discussion holds after moving on it held before.
proof fn lemma_next_held(before: DiscussionView, speech: Speech)
    requires
        before.after_next().holds(speech),
    ensures
        before.holds(speech),
{
    let after = before.after_next();
    if after != before {
        let past = before.past_speeches.len() as int;
        if after.current_new_point == Some(speech) {
            assert(before.upcoming_speeches[0].new_point == speech);
        } else if after.first_response_block.contains(speech) {
            let i = choose|i: int|
                0 <= i < after.first_response_block.len() && after.first_response_block[i]
                    == speech;
            if after.current_new_point is Some {
                assert(before.upcoming_speeches[0].responses[i] == speech);
            } else if before.current_new_point is Some {
                assert(before.first_response_block[i] == speech);
            } else {
                assert(before.first_response_block[i + 1] == speech);
            }
        } else if queue_holds(after.upcoming_speeches, speech) {
            let i = choose|i: int|
                0 <= i < after.upcoming_speeches.len() && ((
                #[trigger] after.upcoming_speeches[i]).new_point == speech
                    || after.upcoming_speeches[i].responses.contains(speech));
            if after.upcoming_speeches != before.upcoming_speeches {
                assert(after.upcoming_speeches[i] == before.upcoming_speeches[i + 1]);
            }
        } else {
            let i = choose|i: int|
                0 <= i < after.past_speeches.len() && ((
                #[trigger] after.past_speeches[i]).new_point == speech
                    || after.past_speeches[i].responses.contains(speech));
            let kept = after.past_speeches[i];
            if before.current_new_point is Some {
                if i < past {
                    assert(kept == before.past_speeches[i]);
                }
            } else {
                assert(kept.new_point == before.past_speeches[i].new_point);
                if kept.responses.contains(speech) {
                    let r = choose|r: int|
                        0 <= r < kept.responses.len() && kept.responses[r] == speech;
                    if r < before.past_speeches[i].responses.len() {
                        assert(before.past_speeches[i].responses[r] == speech);
                    } else {
                        assert(before.first_response_block[0] == speech);
                    }
                }
            }
        }
    }
}

/// What a discussion holds it holds after moving back.
proof fn lemma_previous_holds(before: DiscussionView, speech: Speech)
    requires
        before.holds(speech),
    ensures
        before.after_previous().holds(speech),
{
    let after = before.after_previous();
    if before.past_speeches.len() > 0 {
        let past = before.past_speeches.len() as int;
        let last = before.past_speeches[past - 1];
        let requeued = before.current_new_point is Some;
        if before.current_new_point == Some(speech) {
            assert(after.upcoming_speeches[0].new_point == speech);
        } else if before.first_response_block.contains(speech) {
            let i = choose|i: int|
                0 <= i < before.first_response_block.len() && before.first_response_block[i]
                    == speech;
            if requeued {
                assert(after.upcoming_speeches[0].responses[i] == speech);
            } else if last.responses.len() > 0 {
                assert(after.first_response_block[i + 1] == speech);
            } else {
                assert(after.first_response_block[i] == speech);
            }
        } else if queue_holds(before.upcoming_speeches, speech) {
            let i = choose|i: int|
                0 <= i < before.upcoming_speeches.len() && ((
                #[trigger] before.upcoming_speeches[i]).new_point == speech
                    || before.upcoming_speeches[i].responses.contains(speech));
            if requeued {
                assert(after.upcoming_speeches[i + 1] == before.upcoming_speeches[i]);
            }
        } else {
            let i = choose|i: int|
                0 <= i < before.past_speeches.len() && ((
                #[trigger] before.past_speeches[i]).new_point == speech
                    || before.past_speeches[i].responses.contains(speech));
            if i < past - 1 {
                assert(after.past_speeches[i] == before.past_speeches[i]);
            } else if last.responses.len() == 0 {
                assert(after.current_new_point == Some(speech));
            } else {
                let kept = after.past_speeches[past - 1];
                assert(kept.new_point == last.new_point);
                if last.responses.contains(speech) {
                    let r = choose|r: int|
                        0 <= r < last.responses.len() && last.responses[r] == speech;
                    if r < last.responses.len() - 1 {
                        assert(kept.responses[r] == speech);
                    } else {
                        assert(after.first_response_block[0] == speech);
                    }
                }
            }
        }
    }
}

/// What a discussion holds after moving back it held before.
proof fn lemma_previous_held(before: DiscussionView, speech: Speech)
    requires
        before.after_previous().holds(speech),
    ensures
        before.holds(speech),
{
    let after = before.after_previous();
    if before.past_speeches.len() > 0 {
        let past = before.past_speeches.len() as int;
        let last = before.past_speeches[past - 1];
        let requeued = before.current_new_point is Some;
        if after.current_new_point == Some(speech) {
            assert(last.new_point == speech);
        } else if after.first_response_block.contains(speech) {
            let i = choose|i: int|
                0 <= i < after.first_response_block.len() && after.first_response_block[i]
                    == speech;
            if last.responses.len() > 0 {
                if i == 0 {
                    assert(last.responses[last.responses.len() - 1] == speech);
                } else {
                    assert(before.first_response_block[i - 1] == speech);
                }
            } else {
                assert(before.first_response_block[i] == speech);
            }
        } else if queue_holds(after.upcoming_speeches, speech) {
            let i = choose|i: int|
                0 <= i < after.upcoming_speeches.len() && ((
                #[trigger] after.upcoming_speeches[i]).new_point == speech
                    || after.upcoming_speeches[i].responses.contains(speech));
            if requeued {
                if i > 0 {
                    assert(after.upcoming_speeches[i] == before.upcoming_speeches[i - 1]);
                } else if after.upcoming_speeches[0].new_point != speech {
                    let r = choose|r: int|
                        0 <= r < before.first_response_block.len()
                            && before.first_response_block[r] == speech;
                    assert(before.first_response_block.contains(speech));
                }
            }
        } else {
            let i = choose|i: int|
                0 <= i < after.past_speeches.len() && ((
                #[trigger] after.past_speeches[i]).new_point == speech
                    || after.past_speeches[i].responses.contains(speech));
            let kept = after.past_speeches[i];
            assert(kept.new_point == before.past_speeches[i].new_point);
            if kept.responses.contains(speech) {
                let r = choose|r: int| 0 <= r < kept.responses.len() && kept.responses[r] == speech;
                assert(before.past_speeches[i].responses[r] == speech);
            }
        }
    }
}

/// Moving on keeps a sound state sound, and never reports a state that
/// cannot be.
pub proof fn lemma_next_keeps_wf(before: DiscussionView)
    requires
        before.wf(),
    ensures
        before.after_next().wf(),
        before.next_result() != GotoSpeechResult::IllegalDiscussionSomehow,
{
    let after = before.after_next();
    assert forall|tiebreak: u64| #[trigger] after.speeches_with_tiebreak(tiebreak) <= 1 by {
        lemma_next_keeps_tiebreaks(before, tiebreak);
        assert(before.speeches_with_tiebreak(tiebreak) <= 1);
    }
    assert forall|i: int| 0 <= i < after.upcoming_speeches.len() implies after.point_ok(
        #[trigger] after.upcoming_speeches[i],
    ) by {
        if after.upcoming_speeches != before.upcoming_speeches {
            assert(after.upcoming_speeches[i] == before.upcoming_speeches[i + 1]);
        }
        assert(before.point_ok(after.upcoming_speeches[i]));
    }
    assert forall|i: int| 0 <= i < after.first_response_block.len() implies after.speech_ok(
        #[trigger] after.first_response_block[i],
        true,
    ) by {
        let x = after.first_response_block[i];
        if after.first_response_block == before.first_response_block {
        } else if before.first_response_block.len() > 0 && after.first_response_block
            == before.first_response_block.skip(1) {
            assert(x == before.first_response_block[i + 1]);
        } else {
            assert(before.point_ok(before.upcoming_speeches[0]));
            assert(x == before.upcoming_speeches[0].responses[i]);
        }
        assert(before.speech_ok(x, true));
    }
    assert forall|i: int| 0 <= i < after.past_speeches.len() implies after.point_ok(
        #[trigger] after.past_speeches[i],
    ) by {
        let x = after.past_speeches[i];
        if i < before.past_speeches.len() {
            assert(before.point_ok(before.past_speeches[i]));
            if x != before.past_speeches[i] {
                assert forall|r: int| 0 <= r < x.responses.len() implies after.speech_ok(
                    #[trigger] x.responses[r],
                    true,
                ) by {
                    if r < before.past_speeches[i].responses.len() {
                        assert(x.responses[r] == before.past_speeches[i].responses[r]);
                    } else {
                        assert(x.responses[r] == before.first_response_block[0]);
                    }
                }
            }
        }
    }
    if after.current_new_point != before.current_new_point && after.current_new_point is Some {
        assert(before.point_ok(before.upcoming_speeches[0]));
    }
}

/// Moving back keeps a sound state sound.
pub proof fn lemma_previous_keeps_wf(before: DiscussionView)
    requires
        before.wf(),
    ensures
        before.after_previous().wf(),
{
    let after = before.after_previous();
    assert forall|tiebreak: u64| #[trigger] after.speeches_with_tiebreak(tiebreak) <= 1 by {
        lemma_previous_keeps_tiebreaks(before, tiebreak);
        assert(before.speeches_with_tiebreak(tiebreak) <= 1);
    }
    if before.past_speeches.len() > 0 {
        let last = before.past_speeches.last();
        assert(before.point_ok(last));
        assert forall|i: int| 0 <= i < after.upcoming_speeches.len() implies after.point_ok(
            #[trigger] after.upcoming_speeches[i],
        ) by {
            if before.current_new_point is Some {
                if i > 0 {
                    assert(after.upcoming_speeches[i] == before.upcoming_speeches[i - 1]);
                    assert(before.point_ok(after.upcoming_speeches[i]));
                }
            } else {
                assert(before.point_ok(after.upcoming_speeches[i]));
            }
        }
        assert forall|i: int| 0 <= i < after.first_response_block.len() implies after.speech_ok(
            #[trigger] after.first_response_block[i],
            true,
        ) by {
            let x = after.first_response_block[i];
            if last.responses.len() > 0 {
                if i == 0 {
                    assert(x == last.responses[last.responses.len() - 1]);
                } else {
                    assert(x == before.first_response_block[i - 1]);
                }
            }
            assert(before.speech_ok(x, true));
        }
        assert forall|i: int| 0 <= i < after.past_speeches.len() implies after.point_ok(
            #[trigger] after.past_speeches[i],
        ) by {
            let x = after.past_speeches[i];
            assert(before.point_ok(before.past_speeches[i]));
            if x != before.past_speeches[i] {
                assert forall|r: int| 0 <= r < x.responses.len() implies after.speech_ok(
                    #[trigger] x.responses[r],
                    true,
                ) by {
                    assert(x.responses[r] == before.past_speeches[i].responses[r]);
                }
            }
        }
    }
}

/// Moving on and then back gives the discussion as it was, from every state
/// but one: with nobody on the floor and speeches in the past, moving on
/// changes nothing, and moving back then brings the last speech back.
pub proof fn lemma_next_then_previous(before: DiscussionView)
    requires
        !(before.is_idle() && before.past_speeches.len() > 0),
    ensures
        before.after_next().after_previous() == before,
{
    let after = before.after_next();
    let back = after.after_previous();
    if after != before {
        let last = after.past_speeches.last();
        assert(after.past_speeches.drop_last() =~= before.past_speeches.drop_last()
            || after.past_speeches.drop_last() =~= before.past_speeches);
        match before.current_new_point {
            Some(point) => {
                assert(last.responses.len() == 0);
                assert(back.past_speeches =~= before.past_speeches);
                assert(back.upcoming_speeches =~= before.upcoming_speeches);
                assert(back.first_response_block =~= before.first_response_block);
            },
            None => {
                let old_last = before.past_speeches.last();
                assert(last.responses.last() == before.first_response_block[0]);
                assert(last.responses.drop_last() =~= old_last.responses);
                assert(back.past_speeches =~= before.past_speeches);
                assert(back.upcoming_speeches =~= before.upcoming_speeches);
                assert(back.first_response_block =~= before.first_response_block);
            },
        }
    }
}

/// A resort leaves the first block as long as it was, and pins what was
/// pinned.
pub proof fn lemma_resort_keeps_lengths(sorted: DiscussionView, source: DiscussionView)
    requires
        sorted.is_resort_of(source),
    ensures
        sorted.first_response_block.len() == source.first_response_block.len(),
        sorted.upcoming_speeches.len() == source.upcoming_speeches.len(),
        sorted.pinned() == source.pinned(),
        sorted.key() == source.key(),
        sorted.is_idle() == source.is_idle(),
{
}

/// A resort of a discussion in a sound state is in a sound state.
pub proof fn lemma_resort_keeps_wf(sorted: DiscussionView, source: DiscussionView)
    requires
        sorted.is_resort_of(source),
        source.wf(),
    ensures
        sorted.wf(),
{
    lemma_resort_keeps_lengths(sorted, source);
    assert forall|tiebreak: u64| #[trigger] sorted.speeches_with_tiebreak(tiebreak) <= 1 by {
        lemma_resort_keeps_tiebreaks(sorted, source, tiebreak);
        assert(source.speeches_with_tiebreak(tiebreak) <= 1);
    }
    let p = source.pinned();
    let key = source.key();
    let pkey = point_key(source.priority_mode, source.speakers);
    assert forall|i: int| 0 <= i < sorted.first_response_block.len() implies sorted.speech_ok(
        #[trigger] sorted.first_response_block[i],
        true,
    ) by {
        let x = sorted.first_response_block[i];
        if i < p {
            assert(x == source.first_response_block[i]);
        } else {
            assert(x == sorted.first_response_block.skip(p)[i - p]);
            lemma_stable_sort_members(
                sorted.first_response_block.skip(p),
                source.first_response_block.skip(p),
                key,
            );
            assert(sorted.first_response_block.skip(p).contains(x));
            assert(source.first_response_block.skip(p).contains(x));
            let j = choose|j: int|
                0 <= j < source.first_response_block.skip(p).len()
                    && source.first_response_block.skip(p)[j] == x;
            assert(x == source.first_response_block[j + p]);
        }
    }
    let blocks_done = choose|blocks_done: Seq<PointView>|
        #![trigger blocks_sorted(blocks_done, source.upcoming_speeches, source.priority_mode, source.speakers)]
        blocks_sorted(blocks_done, source.upcoming_speeches, source.priority_mode, source.speakers)
            && is_stable_sort_of(sorted.upcoming_speeches, blocks_done, pkey);
    assert forall|i: int| 0 <= i < sorted.upcoming_speeches.len() implies sorted.point_ok(
        #[trigger] sorted.upcoming_speeches[i],
    ) by {
        let x = sorted.upcoming_speeches[i];
        lemma_stable_sort_members(sorted.upcoming_speeches, blocks_done, pkey);
        assert(sorted.upcoming_speeches.contains(x));
        assert(blocks_done.contains(x));
        let j = choose|j: int| 0 <= j < blocks_done.len() && blocks_done[j] == x;
        let y = source.upcoming_speeches[j];
        assert(source.point_ok(y));
        assert(blocks_done[j].new_point == y.new_point);
        lemma_stable_sort_members(x.responses, y.responses, key);
        assert forall|r: int| 0 <= r < x.responses.len() implies sorted.speech_ok(
            #[trigger] x.responses[r],
            true,
        ) by {
            assert(x.responses.contains(x.responses[r]));
            assert(y.responses.contains(x.responses[r]));
            let q = choose|q: int| 0 <= q < y.responses.len() && y.responses[q] == x.responses[r];
            assert(source.speech_ok(y.responses[q], true));
        }
    }
}

/// After a resort every waiting speech stands where the mode puts it.
pub proof fn lemma_resort_in_order(sorted: DiscussionView, source: DiscussionView)
    requires
        sorted.is_resort_of(source),
    ensures
        sorted.in_order(),
{
    lemma_resort_keeps_lengths(sorted, source);
    let key = source.key();
    let pkey = point_key(source.priority_mode, source.speakers);
    let blocks_done = choose|blocks_done: Seq<PointView>|
        #![trigger blocks_sorted(blocks_done, source.upcoming_speeches, source.priority_mode, source.speakers)]
        blocks_sorted(blocks_done, source.upcoming_speeches, source.priority_mode, source.speakers)
            && is_stable_sort_of(sorted.upcoming_speeches, blocks_done, pkey);
    assert forall|i: int| 0 <= i < sorted.upcoming_speeches.len() implies sorted_by_key(
        (#[trigger] sorted.upcoming_speeches[i]).responses,
        sorted.key(),
    ) by {
        let x = sorted.upcoming_speeches[i];
        lemma_stable_sort_members(sorted.upcoming_speeches, blocks_done, pkey);
        assert(sorted.upcoming_speeches.contains(x));
        assert(blocks_done.contains(x));
        let j = choose|j: int| 0 <= j < blocks_done.len() && blocks_done[j] == x;
        assert(is_stable_sort_of(blocks_done[j].responses, source.upcoming_speeches[j].responses, key));
    }
}

/// A resort changes nothing where every waiting speech stands already
/// where the mode puts it.
pub proof fn lemma_resort_of_ordered(sorted: DiscussionView, source: DiscussionView)
    requires
        sorted.is_resort_of(source),
        source.in_order(),
    ensures
        sorted == source,
{
    lemma_resort_keeps_lengths(sorted, source);
    let p = source.pinned();
    let key = source.key();
    let pkey = point_key(source.priority_mode, source.speakers);
    lemma_stable_sort_unique(
        sorted.first_response_block.skip(p),
        source.first_response_block.skip(p),
        key,
    );
    assert(sorted.first_response_block =~= source.first_response_block) by {
        assert forall|i: int| 0 <= i < sorted.first_response_block.len() implies sorted.first_response_block[i]
            == source.first_response_block[i] by {
            if i < p {
            } else {
                assert(sorted.first_response_block[i] == sorted.first_response_block.skip(p)[i - p]);
                assert(source.first_response_block[i] == source.first_response_block.skip(p)[i - p]);
            }
        }
    }
    let blocks_done = choose|blocks_done: Seq<PointView>|
        #![trigger blocks_sorted(blocks_done, source.upcoming_speeches, source.priority_mode, source.speakers)]
        blocks_sorted(blocks_done, source.upcoming_speeches, source.priority_mode, source.speakers)
            && is_stable_sort_of(sorted.upcoming_speeches, blocks_done, pkey);
    assert(blocks_done =~= source.upcoming_speeches) by {
        assert forall|i: int| 0 <= i < blocks_done.len() implies blocks_done[i]
            == source.upcoming_speeches[i] by {
            assert(is_stable_sort_of(
                blocks_done[i].responses,
                source.upcoming_speeches[i].responses,
                key,
            ));
            assert(sorted_by_key(source.upcoming_speeches[i].responses, key));
            lemma_stable_sort_unique(
                blocks_done[i].responses,
                source.upcoming_speeches[i].responses,
                key,
            );
        }
    }
    lemma_stable_sort_unique(sorted.upcoming_speeches, source.upcoming_speeches, pkey);
}

/// A resort loses no speech and makes none.
pub proof fn lemma_resort_keeps_speeches(
    sorted: DiscussionView,
    source: DiscussionView,
    speech: Speech,
)
    requires
        sorted.is_resort_of(source),
    ensures
        sorted.holds(speech) == source.holds(speech),
{
    let p = source.pinned();
    let key = source.key();
    let pkey = point_key(source.priority_mode, source.speakers);
    let blocks_done = choose|blocks_done: Seq<PointView>|
        #![trigger blocks_sorted(blocks_done, source.upcoming_speeches, source.priority_mode, source.speakers)]
        blocks_sorted(blocks_done, source.upcoming_speeches, source.priority_mode, source.speakers)
            && is_stable_sort_of(sorted.upcoming_speeches, blocks_done, pkey);
    lemma_stable_sort_members(
        sorted.first_response_block.skip(p),
        source.first_response_block.skip(p),
        key,
    );
    lemma_stable_sort_members(sorted.upcoming_speeches, blocks_done, pkey);
    lemma_block_in_two_parts(sorted.first_response_block, p, speech);
    lemma_block_in_two_parts(source.first_response_block, p, speech);
    assert(sorted.first_response_block.contains(speech) == source.first_response_block.contains(
        speech,
    ));
    if queue_holds(sorted.upcoming_speeches, speech) {
        let i = choose|i: int|
            0 <= i < sorted.upcoming_speeches.len() && ((
            #[trigger] sorted.upcoming_speeches[i]).new_point == speech
                || sorted.upcoming_speeches[i].responses.contains(speech));
        let point = sorted.upcoming_speeches[i];
        assert(sorted.upcoming_speeches.contains(point));
        assert(blocks_done.contains(point));
        let j = choose|j: int| 0 <= j < blocks_done.len() && blocks_done[j] == point;
        lemma_stable_sort_members(point.responses, source.upcoming_speeches[j].responses, key);
        assert(source.upcoming_speeches[j].new_point == point.new_point);
    }
    if queue_holds(source.upcoming_speeches, speech) {
        let j = choose|j: int|
            0 <= j < source.upcoming_speeches.len() && ((
            #[trigger] source.upcoming_speeches[j]).new_point == speech
                || source.upcoming_speeches[j].responses.contains(speech));
        let point = blocks_done[j];
        lemma_stable_sort_members(point.responses, source.upcoming_speeches[j].responses, key);
        assert(blocks_done.contains(point));
        assert(sorted.upcoming_speeches.contains(point));
        let i = choose|i: int|
            0 <= i < sorted.upcoming_speeches.len() && sorted.upcoming_speeches[i] == point;
        assert(sorted.upcoming_speeches[i].new_point == source.upcoming_speeches[j].new_point);
    }
}

/// A block holds what its head of `n` speeches holds and what the rest
/// holds.
proof fn lemma_block_in_two_parts(block: Seq<Speech>, n: int, speech: Speech)
    requires
        0 <= n <= 1,
        n <= block.len(),
    ensures
        block.contains(speech) == ((n == 1 && block[0] == speech) || block.skip(n).contains(speech)),
{
    if block.contains(speech) {
        let i = choose|i: int| 0 <= i < block.len() && block[i] == speech;
        if i >= n {
            assert(block.skip(n)[i - n] == speech);
        }
    }
    if block.skip(n).contains(speech) {
        let i = choose|i: int| 0 <= i < block.skip(n).len() && block.skip(n)[i] == speech;
        assert(block[i + n] == speech);
    }
}

/// Resorting twice gives what resorting once gives.
pub proof fn lemma_resort_idempotent(
    twice: DiscussionView,
    once: DiscussionView,
    source: DiscussionView,
)
    requires
        once.is_resort_of(source),
        twice.is_resort_of(once),
    ensures
        twice == once,
{
    lemma_resort_in_order(once, source);
    lemma_resort_of_ordered(twice, once);
}

/// Under `FavourBriefest`, of two waiting new points the one whose speaker
/// has spoken less stands before the other after a resort.
pub proof fn lemma_briefest_speaks_first(
    sorted: DiscussionView,
    source: DiscussionView,
    a: int,
    b: int,
)
    requires
        sorted.is_resort_of(source),
        source.priority_mode == PriorityMode::FavourBriefest,
        0 <= a < source.upcoming_speeches.len(),
        0 <= b < source.upcoming_speeches.len(),
        source.speakers[source.upcoming_speeches[a].new_point.speaker as int].total_speaking_time
            < source.speakers[source.upcoming_speeches[b].new_point.speaker as int].total_speaking_time,
    ensures
        exists|i: int, j: int|
            0 <= i < j < sorted.upcoming_speeches.len() && (
            #[trigger] sorted.upcoming_speeches[i]).new_point
                == source.upcoming_speeches[a].new_point && (
            #[trigger] sorted.upcoming_speeches[j]).new_point
                == source.upcoming_speeches[b].new_point,
{
    let pkey = point_key(source.priority_mode, source.speakers);
    let blocks_done = choose|blocks_done: Seq<PointView>|
        #![trigger blocks_sorted(blocks_done, source.upcoming_speeches, source.priority_mode, source.speakers)]
        blocks_sorted(blocks_done, source.upcoming_speeches, source.priority_mode, source.speakers)
            && is_stable_sort_of(sorted.upcoming_speeches, blocks_done, pkey);
    lemma_stable_sort_members(sorted.upcoming_speeches, blocks_done, pkey);
    assert(blocks_done[a].new_point == source.upcoming_speeches[a].new_point);
    assert(blocks_done[b].new_point == source.upcoming_speeches[b].new_point);
    assert(blocks_done.contains(blocks_done[a]));
    assert(blocks_done.contains(blocks_done[b]));
    assert(sorted.upcoming_speeches.contains(blocks_done[a]));
    assert(sorted.upcoming_speeches.contains(blocks_done[b]));
    let i = choose|i: int|
        0 <= i < sorted.upcoming_speeches.len() && sorted.upcoming_speeches[i] == blocks_done[a];
    let j = choose|j: int|
        0 <= j < sorted.upcoming_speeches.len() && sorted.upcoming_speeches[j] == blocks_done[b];
    assert(pkey(sorted.upcoming_speeches[i]) < pkey(sorted.upcoming_speeches[j]));
    if j <= i {
        if j < i {
            assert(pkey(sorted.upcoming_speeches[j]) <= pkey(sorted.upcoming_speeches[i]));
        }
        assert(false);
    }
}

/// Under `FirstComeFirstServe`, whatever speeches are asked for in a new
/// discussion, they stand as they came: new points behind new points,
/// responses behind responses and before every new point that waits. A
/// resort would move none of them.
pub proof fn lemma_first_come_first_served(requests: Seq<(Seq<char>, bool)>)
    requires
        requests.len() <= usize::MAX,
    ensures
        after_requests(fresh_discussion(), requests).wf(),
        after_requests(fresh_discussion(), requests).in_arrival_order(),
        after_requests(fresh_discussion(), requests).in_order(),
        after_requests(fresh_discussion(), requests).priority_mode
            == PriorityMode::FirstComeFirstServe,
        after_requests(fresh_discussion(), requests).past_speeches.len() == 0,
        after_requests(fresh_discussion(), requests).speeches_added <= requests.len(),
        after_requests(fresh_discussion(), requests).speakers.len() <= after_requests(
            fresh_discussion(),
            requests,
        ).speeches_added,
    decreases requests.len(),
{
    let after = after_requests(fresh_discussion(), requests);
    if requests.len() == 0 {
        assert(after.new_points() =~= Seq::<Speech>::empty());
    } else {
        let before = after_requests(fresh_discussion(), requests.drop_last());
        let name = requests.last().0;
        let is_response = requests.last().1;
        lemma_first_come_first_served(requests.drop_last());
        if before.can_take(is_response) {
            lemma_with_speech_keeps_wf(before, name, is_response);
            let came = before.speeches_added;
            assert forall|i: int| 0 <= i < before.new_points().len() implies (
            #[trigger] before.new_points()[i]).order_tiebreak < came by {
                if before.current_new_point is Some {
                    if i > 0 {
                        assert(before.point_ok(before.upcoming_speeches[i - 1]));
                    }
                } else {
                    assert(before.point_ok(before.upcoming_speeches[i]));
                }
            }
            assert forall|i: int| 0 <= i < before.first_response_block.len() implies (
            #[trigger] before.first_response_block[i]).order_tiebreak < came by {
                assert(before.speech_ok(before.first_response_block[i], true));
            }
            if is_response && !before.is_idle() {
                assert(after.new_points() =~= before.new_points());
            } else if before.is_idle() {
                assert(after.new_points() =~= seq![after.current_new_point.unwrap()]);
            } else {
                assert(after.new_points() =~= before.new_points().push(
                    after.upcoming_speeches.last().new_point,
                ));
            }
            assert(tiebreaks_rise(after.new_points()));
            assert(tiebreaks_rise(after.first_response_block));
        }
    }
    lemma_arrival_order_is_in_order(after);
}

/// Under `FirstComeFirstServe`, speeches that stand as they came stand
/// where the mode puts them.
pub proof fn lemma_arrival_order_is_in_order(discussion: DiscussionView)
    requires
        discussion.in_arrival_order(),
        discussion.priority_mode == PriorityMode::FirstComeFirstServe,
    ensures
        discussion.in_order(),
{
    let key = discussion.key();
    let pkey = point_key(discussion.priority_mode, discussion.speakers);
    let p = discussion.pinned();
    let rest = discussion.first_response_block.skip(p);
    assert forall|i: int, j: int| 0 <= i < j < rest.len() implies key(rest[i]) <= key(rest[j]) by {
        assert(rest[i] == discussion.first_response_block[i + p]);
        assert(rest[j] == discussion.first_response_block[j + p]);
    }
    let offset = discussion.new_points().len() - discussion.upcoming_speeches.len();
    assert forall|i: int, j: int| 0 <= i < j < discussion.upcoming_speeches.len() implies pkey(
        discussion.upcoming_speeches[i],
    ) <= pkey(discussion.upcoming_speeches[j]) by {
        assert(discussion.new_points()[i + offset] == discussion.upcoming_speeches[i].new_point);
        assert(discussion.new_points()[j + offset] == discussion.upcoming_speeches[j].new_point);
    }
}

/// Where all speakers have spoken as long as each other, a resort under
/// `FavourBriefest` changes nothing: ties keep their order.
pub proof fn lemma_resort_of_ties(sorted: DiscussionView, source: DiscussionView)
    requires
        sorted.is_resort_of(source),
        source.priority_mode == PriorityMode::FavourBriefest,
        source.wf(),
        forall|i: int, j: int|
            0 <= i < source.speakers.len() && 0 <= j < source.speakers.len() ==> (
            #[trigger] source.speakers[i]).total_speaking_time == (
            #[trigger] source.speakers[j]).total_speaking_time,
    ensures
        sorted == source,
{
    let key = source.key();
    let pkey = point_key(source.priority_mode, source.speakers);
    let p = source.pinned();
    let rest = source.first_response_block.skip(p);
    assert forall|i: int, j: int| 0 <= i < j < rest.len() implies key(rest[i]) <= key(rest[j]) by {
        assert(source.speech_ok(source.first_response_block[i + p], true));
        assert(source.speech_ok(source.first_response_block[j + p], true));
    }
    assert forall|i: int, j: int| 0 <= i < j < source.upcoming_speeches.len() implies pkey(
        source.upcoming_speeches[i],
    ) <= pkey(source.upcoming_speeches[j]) by {
        assert(source.point_ok(source.upcoming_speeches[i]));
        assert(source.point_ok(source.upcoming_speeches[j]));
    }
    assert forall|n: int| 0 <= n < source.upcoming_speeches.len() implies sorted_by_key(
        (#[trigger] source.upcoming_speeches[n]).responses,
        key,
    ) by {
        let block = source.upcoming_speeches[n].responses;
        assert(source.point_ok(source.upcoming_speeches[n]));
        assert forall|i: int, j: int| 0 <= i < j < block.len() implies key(block[i]) <= key(
            block[j],
        ) by {
            assert(source.speech_ok(block[i], true));
            assert(source.speech_ok(block[j], true));
        }
    }
    lemma_resort_of_ordered(sorted, source);
}

} // verus!
