//! Tiebreaks are never given twice: what each operation makes of the
//! number of speeches that bear a tiebreak.

use crate::discussion::model::{
    blocks_sorted, counts_tiebreak, point_counts_tiebreak, point_key, DiscussionView, PointView,
};
use crate::speech::Speech;
use crate::stable_order::is_stable_sort_of;
use crate::tally::{
    lemma_stable_sort_tally, lemma_tally_alike, lemma_tally_concat, lemma_tally_nothing,
    lemma_tally_one, lemma_tally_remove, tally,
};
use vstd::prelude::*;

verus! {

/// A list of new points with one more at its end counts for one point
/// more.
pub proof fn lemma_queue_tally_push(queue: Seq<PointView>, point: PointView, tiebreak: u64)
    ensures
        tally(queue.push(point), point_counts_tiebreak(tiebreak)) == tally(
            queue,
            point_counts_tiebreak(tiebreak),
        ) + point_counts_tiebreak(tiebreak)(point),
{
    assert(queue.push(point).drop_last() =~= queue);
}

/// A block with one more response at its end counts for one speech more.
pub proof fn lemma_block_tally_push(block: Seq<Speech>, speech: Speech, tiebreak: u64)
    ensures
        tally(block.push(speech), counts_tiebreak(tiebreak)) == tally(
            block,
            counts_tiebreak(tiebreak),
        ) + counts_tiebreak(tiebreak)(speech),
{
    assert(block.push(speech).drop_last() =~= block);
}

/// A sequence counts for its first item and for the rest.
pub proof fn lemma_tally_first<T>(s: Seq<T>, weight: spec_fn(T) -> nat)
    requires
        s.len() > 0,
    ensures
        tally(s, weight) == weight(s[0]) + tally(s.skip(1), weight),
{
    lemma_tally_remove(s, 0, weight);
    assert(s.remove(0) =~= s.skip(1));
}

/// An item before a sequence adds what it counts for.
pub proof fn lemma_tally_in_front<T>(x: T, s: Seq<T>, weight: spec_fn(T) -> nat)
    ensures
        tally(seq![x] + s, weight) == weight(x) + tally(s, weight),
{
    lemma_tally_concat(seq![x], s, weight);
    lemma_tally_one(x, weight);
}

/// Moving on leaves as many speeches of each tiebreak as there were.
pub proof fn lemma_next_keeps_tiebreaks(before: DiscussionView, tiebreak: u64)
    ensures
        before.after_next().speeches_with_tiebreak(tiebreak) == before.speeches_with_tiebreak(
            tiebreak,
        ),
{
    let after = before.after_next();
    let w = counts_tiebreak(tiebreak);
    let pw = point_counts_tiebreak(tiebreak);
    if after != before {
        assert(tally(Seq::<Speech>::empty(), w) == 0);
        match before.current_new_point {
            Some(point) => {
                lemma_queue_tally_push(
                    before.past_speeches,
                    PointView { new_point: point, responses: Seq::empty() },
                    tiebreak,
                );
                if !(before.first_response_block.len() > 0 || before.upcoming_speeches.len()
                    == 0) {
                    lemma_tally_first(before.upcoming_speeches, pw);
                }
            },
            None => {
                let last = before.past_speeches.last();
                let given = before.first_response_block[0];
                lemma_queue_tally_push(
                    before.past_speeches.drop_last(),
                    PointView { new_point: last.new_point, responses: last.responses.push(given) },
                    tiebreak,
                );
                lemma_block_tally_push(last.responses, given, tiebreak);
                lemma_tally_first(before.first_response_block, w);
                if !(before.first_response_block.len() > 1 || before.upcoming_speeches.len()
                    == 0) {
                    lemma_tally_first(before.upcoming_speeches, pw);
                    assert(before.first_response_block.skip(1) =~= Seq::<Speech>::empty());
                }
            },
        }
    }
}

/// Moving back leaves as many speeches of each tiebreak as there were.
pub proof fn lemma_previous_keeps_tiebreaks(before: DiscussionView, tiebreak: u64)
    ensures
        before.after_previous().speeches_with_tiebreak(tiebreak)
            == before.speeches_with_tiebreak(tiebreak),
{
    let after = before.after_previous();
    let w = counts_tiebreak(tiebreak);
    let pw = point_counts_tiebreak(tiebreak);
    if before.past_speeches.len() > 0 {
        let last = before.past_speeches.last();
        let earlier = before.past_speeches.drop_last();
        let requeued = before.with_current_requeued();
        assert(tally(Seq::<Speech>::empty(), w) == 0);
        match before.current_new_point {
            Some(point) => {
                lemma_tally_in_front(
                    PointView { new_point: point, responses: before.first_response_block },
                    before.upcoming_speeches,
                    pw,
                );
            },
            None => {},
        }
        assert(requeued.speeches_with_tiebreak(tiebreak) == before.speeches_with_tiebreak(
            tiebreak,
        ));
        if last.responses.len() > 0 {
            lemma_tally_in_front(last.responses.last(), requeued.first_response_block, w);
            lemma_queue_tally_push(
                earlier,
                PointView { new_point: last.new_point, responses: last.responses.drop_last() },
                tiebreak,
            );
        }
    }
}

/// A speech that is taken is one speech more of its tiebreak, and of no
/// other.
pub proof fn lemma_with_speech_adds_tiebreak(
    before: DiscussionView,
    name: Seq<char>,
    is_response: bool,
    tiebreak: u64,
)
    ensures
        before.with_speech(name, is_response).speeches_with_tiebreak(tiebreak)
            == before.speeches_with_tiebreak(tiebreak) + counts_tiebreak(tiebreak)(
            before.next_speech(name, is_response),
        ),
{
    let speech = before.next_speech(name, is_response);
    let w = counts_tiebreak(tiebreak);
    if speech.is_response {
        lemma_block_tally_push(before.first_response_block, speech, tiebreak);
    } else if !before.is_idle() {
        lemma_queue_tally_push(
            before.upcoming_speeches,
            PointView { new_point: speech, responses: Seq::empty() },
            tiebreak,
        );
        assert(tally(Seq::<Speech>::empty(), w) == 0);
    }
}

/// No speech of a sound block has a tiebreak that is yet to be given.
proof fn lemma_block_below(discussion: DiscussionView, block: Seq<Speech>, tiebreak: u64)
    requires
        discussion.block_ok(block),
        tiebreak >= discussion.speeches_added,
    ensures
        tally(block, counts_tiebreak(tiebreak)) == 0,
{
    assert forall|i: int| 0 <= i < block.len() implies counts_tiebreak(tiebreak)(
        #[trigger] block[i],
    ) == 0 by {
        assert(discussion.speech_ok(block[i], true));
    }
    lemma_tally_nothing(block, counts_tiebreak(tiebreak));
}

/// No speech of a sound list of new points has a tiebreak that is yet to be
/// given.
proof fn lemma_queue_below(discussion: DiscussionView, queue: Seq<PointView>, tiebreak: u64)
    requires
        discussion.queue_ok(queue),
        tiebreak >= discussion.speeches_added,
    ensures
        tally(queue, point_counts_tiebreak(tiebreak)) == 0,
{
    assert forall|i: int| 0 <= i < queue.len() implies point_counts_tiebreak(tiebreak)(
        #[trigger] queue[i],
    ) == 0 by {
        assert(discussion.point_ok(queue[i]));
        lemma_block_below(discussion, queue[i].responses, tiebreak);
    }
    lemma_tally_nothing(queue, point_counts_tiebreak(tiebreak));
}

/// No speech of a discussion has a tiebreak that is yet to be given.
pub proof fn lemma_no_tiebreak_ahead(discussion: DiscussionView, tiebreak: u64)
    requires
        discussion.current_new_point matches Some(point) ==> discussion.speech_ok(point, false),
        discussion.block_ok(discussion.first_response_block),
        discussion.queue_ok(discussion.upcoming_speeches),
        discussion.queue_ok(discussion.past_speeches),
        tiebreak >= discussion.speeches_added,
    ensures
        discussion.speeches_with_tiebreak(tiebreak) == 0,
{
    lemma_block_below(discussion, discussion.first_response_block, tiebreak);
    lemma_queue_below(discussion, discussion.upcoming_speeches, tiebreak);
    lemma_queue_below(discussion, discussion.past_speeches, tiebreak);
}

/// A second more leaves as many speeches of each tiebreak as there were.
pub proof fn lemma_after_second_keeps_tiebreaks(before: DiscussionView, tiebreak: u64)
    ensures
        before.after_second().speeches_with_tiebreak(tiebreak) == before.speeches_with_tiebreak(
            tiebreak,
        ),
{
    let after = before.after_second();
    let w = counts_tiebreak(tiebreak);
    if after.first_response_block != before.first_response_block {
        assert forall|i: int| 0 <= i < before.first_response_block.len() implies w(
            #[trigger] after.first_response_block[i],
        ) == w(before.first_response_block[i]) by {}
        lemma_tally_alike(after.first_response_block, before.first_response_block, w, w);
    }
}

/// A resort leaves as many speeches of each tiebreak as there were.
pub proof fn lemma_resort_keeps_tiebreaks(
    sorted: DiscussionView,
    source: DiscussionView,
    tiebreak: u64,
)
    requires
        sorted.is_resort_of(source),
    ensures
        sorted.speeches_with_tiebreak(tiebreak) == source.speeches_with_tiebreak(tiebreak),
{
    let p = source.pinned();
    let key = source.key();
    let pkey = point_key(source.priority_mode, source.speakers);
    let w = counts_tiebreak(tiebreak);
    let pw = point_counts_tiebreak(tiebreak);
    lemma_stable_sort_tally(
        sorted.first_response_block.skip(p),
        source.first_response_block.skip(p),
        key,
        w,
    );
    if p == 1 {
        lemma_tally_first(sorted.first_response_block, w);
        lemma_tally_first(source.first_response_block, w);
    } else {
        assert(sorted.first_response_block.skip(0) =~= sorted.first_response_block);
        assert(source.first_response_block.skip(0) =~= source.first_response_block);
    }
    let blocks_done = choose|blocks_done: Seq<PointView>|
        #![trigger blocks_sorted(blocks_done, source.upcoming_speeches, source.priority_mode, source.speakers)]
        blocks_sorted(blocks_done, source.upcoming_speeches, source.priority_mode, source.speakers)
            && is_stable_sort_of(sorted.upcoming_speeches, blocks_done, pkey);
    lemma_stable_sort_tally(sorted.upcoming_speeches, blocks_done, pkey, pw);
    assert forall|i: int| 0 <= i < blocks_done.len() implies pw(#[trigger] blocks_done[i]) == pw(
        source.upcoming_speeches[i],
    ) by {
        lemma_stable_sort_tally(
            blocks_done[i].responses,
            source.upcoming_speeches[i].responses,
            key,
            w,
        );
    }
    lemma_tally_alike(blocks_done, source.upcoming_speeches, pw, pw);
}

} // verus!
