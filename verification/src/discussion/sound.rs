//! Telling at run time whether a discussion is in a sound state.
//!
//! The fields of a `Discussion` are open to its users. The operations that
//! ask for a sound state can be guarded by `Discussion::is_wf`.

use crate::discussion::model::{
    counts_tiebreak, point_counts_tiebreak, point_view, queue_view, speakers_view,
};
use crate::discussion::{Discussion, ListOfSpeeches, ResponseBlock};
use crate::speech::{Speaker, Speech};
use crate::tally::{lemma_tally_nothing, lemma_tally_remove, tally};
use vstd::prelude::*;

verus! {

/// What a number counts for among the numbers equal to `value`: one if it
/// is equal, nothing if not.
pub open spec fn counts_value(value: u64) -> spec_fn(u64) -> nat {
    |other: u64|
        if other == value {
            1nat
        } else {
            0nat
        }
}

/// A number that stands at two places is counted twice at least.
proof fn lemma_twice_counts_twice(list: Seq<u64>, i: int, j: int)
    requires
        0 <= i < j < list.len(),
        list[i] == list[j],
    ensures
        tally(list, counts_value(list[i])) >= 2,
{
    lemma_tally_remove(list, j, counts_value(list[i]));
    assert(list.remove(j)[i] == list[i]);
    lemma_tally_remove(list.remove(j), i, counts_value(list[i]));
}

/// Where no number stands at two places, none is counted twice.
proof fn lemma_once_counts_once(list: Seq<u64>, value: u64)
    requires
        forall|i: int, j: int| 0 <= i < j < list.len() ==> list[i] != list[j],
    ensures
        tally(list, counts_value(value)) <= 1,
    decreases list.len(),
{
    if list.len() > 0 {
        let rest = list.drop_last();
        assert forall|i: int, j: int| 0 <= i < j < rest.len() implies rest[i] != rest[j] by {
            assert(rest[i] == list[i] && rest[j] == list[j]);
        }
        if list.last() == value {
            assert forall|i: int| 0 <= i < rest.len() implies counts_value(value)(
                #[trigger] rest[i],
            ) == 0 by {
                assert(rest[i] == list[i]);
                assert(list[i] != list[list.len() - 1]);
            }
            lemma_tally_nothing(rest, counts_value(value));
        } else {
            lemma_once_counts_once(rest, value);
        }
    }
}

/// Whether no number stands twice in `list`.
fn all_differ(list: &Vec<u64>) -> (ok: bool)
    ensures
        ok == forall|value: u64| #[trigger] tally(list@, counts_value(value)) <= 1,
{
    let mut j: usize = 0;
    while j < list.len()
        invariant
            j <= list@.len(),
            forall|a: int, b: int| 0 <= a < b < j ==> list@[a] != list@[b],
        decreases list@.len() - j,
    {
        let mut i: usize = 0;
        while i < j
            invariant
                i <= j < list@.len(),
                forall|a: int| 0 <= a < i ==> list@[a] != list@[j as int],
            decreases j - i,
        {
            if list[i] == list[j] {
                proof {
                    lemma_twice_counts_twice(list@, i as int, j as int);
                }
                return false;
            }
            i = i + 1;
        }
        j = j + 1;
    }
    proof {
        assert forall|value: u64| #[trigger] tally(list@, counts_value(value)) <= 1 by {
            lemma_once_counts_once(list@, value);
        }
    }
    true
}

/// Puts the tiebreaks of a block of responses at the end of `list`.
fn push_block_tiebreaks(list: &mut Vec<u64>, block: &ResponseBlock)
    ensures
        forall|value: u64|
            #[trigger] tally(final(list)@, counts_value(value)) == tally(
                old(list)@,
                counts_value(value),
            ) + tally(block@, counts_tiebreak(value)),
{
    let mut i: usize = 0;
    assert(block@.take(0) =~= Seq::<Speech>::empty());
    while i < block.len()
        invariant
            i <= block@.len(),
            forall|value: u64|
                #[trigger] tally(list@, counts_value(value)) == tally(
                    old(list)@,
                    counts_value(value),
                ) + tally(block@.take(i as int), counts_tiebreak(value)),
        decreases block@.len() - i,
    {
        let ghost before = list@;
        list.push(block[i].order_tiebreak);
        proof {
            assert(list@.drop_last() =~= before);
            assert(block@.take(i + 1).drop_last() =~= block@.take(i as int));
            assert forall|value: u64| #[trigger]
                tally(list@, counts_value(value)) == tally(old(list)@, counts_value(value))
                    + tally(block@.take(i + 1), counts_tiebreak(value)) by {
                assert(tally(before, counts_value(value)) == tally(
                    old(list)@,
                    counts_value(value),
                ) + tally(block@.take(i as int), counts_tiebreak(value)));
            }
        }
        i = i + 1;
    }
    assert(block@.take(i as int) =~= block@);
}

/// Puts the tiebreaks of a list of new points and of their responses at the
/// end of `list`.
fn push_queue_tiebreaks(list: &mut Vec<u64>, queue: &ListOfSpeeches)
    ensures
        forall|value: u64|
            #[trigger] tally(final(list)@, counts_value(value)) == tally(
                old(list)@,
                counts_value(value),
            ) + tally(queue_view(queue@), point_counts_tiebreak(value)),
{
    let ghost points = queue_view(queue@);
    let mut i: usize = 0;
    assert(points.take(0) =~= Seq::empty());
    while i < queue.len()
        invariant
            i <= queue@.len(),
            points == queue_view(queue@),
            forall|value: u64|
                #[trigger] tally(list@, counts_value(value)) == tally(
                    old(list)@,
                    counts_value(value),
                ) + tally(points.take(i as int), point_counts_tiebreak(value)),
        decreases queue@.len() - i,
    {
        let ghost before = list@;
        let point = &queue[i];
        list.push(point.0.order_tiebreak);
        let ghost with_point = list@;
        push_block_tiebreaks(list, &point.1);
        proof {
            assert(with_point.drop_last() =~= before);
            assert(points[i as int] == point_view(*point));
            assert(points.take(i + 1).drop_last() =~= points.take(i as int));
            assert forall|value: u64| #[trigger]
                tally(list@, counts_value(value)) == tally(old(list)@, counts_value(value))
                    + tally(points.take(i + 1), point_counts_tiebreak(value)) by {
                assert(tally(before, counts_value(value)) == tally(
                    old(list)@,
                    counts_value(value),
                ) + tally(points.take(i as int), point_counts_tiebreak(value)));
                assert(tally(list@, counts_value(value)) == tally(
                    with_point,
                    counts_value(value),
                ) + tally(point.1@, counts_tiebreak(value)));
            }
        }
        i = i + 1;
    }
    assert(points.take(i as int) =~= points);
}

/// Whether no two speakers bear the same name.
fn names_differ(speakers: &Vec<Speaker>) -> (ok: bool)
    ensures
        ok == forall|i: int, j: int|
            0 <= i < j < speakers@.len() ==> (#[trigger] speakers_view(speakers@)[i]).name != (
            #[trigger] speakers_view(speakers@)[j]).name,
{
    let ghost views = speakers_view(speakers@);
    let mut j: usize = 0;
    while j < speakers.len()
        invariant
            j <= speakers@.len(),
            views == speakers_view(speakers@),
            forall|a: int, b: int|
                0 <= a < b < j ==> (#[trigger] views[a]).name != (#[trigger] views[b]).name,
        decreases speakers@.len() - j,
    {
        let mut i: usize = 0;
        while i < j
            invariant
                i <= j < speakers@.len(),
                views == speakers_view(speakers@),
                forall|a: int| 0 <= a < i ==> (#[trigger] views[a]).name != views[j as int].name,
            decreases j - i,
        {
            if speakers[i].name == speakers[j].name {
                assert(views[i as int].name == views[j as int].name);
                return false;
            }
            i = i + 1;
        }
        j = j + 1;
    }
    true
}

impl Discussion {
    /// Whether `speech` is one of this discussion's, in the given role.
    fn speech_is_ok(&self, speech: &Speech, is_response: bool) -> (ok: bool)
        ensures
            ok == self@.speech_ok(*speech, is_response),
    {
        speech.speaker < self.speakers.len() && speech.is_response == is_response
            && speech.order_tiebreak < self.speeches_added && speech.duration
            <= self.speakers[speech.speaker].total_speaking_time
    }

    /// Whether `block` is a block of responses of this discussion.
    fn block_is_ok(&self, block: &ResponseBlock) -> (ok: bool)
        ensures
            ok == self@.block_ok(block@),
    {
        let mut i: usize = 0;
        while i < block.len()
            invariant
                i <= block@.len(),
                forall|k: int| 0 <= k < i ==> self@.speech_ok(#[trigger] block@[k], true),
            decreases block@.len() - i,
        {
            if !self.speech_is_ok(&block[i], true) {
                assert(!self@.speech_ok(block@[i as int], true));
                return false;
            }
            i = i + 1;
        }
        true
    }

    /// Whether `queue` is a list of new points of this discussion.
    fn queue_is_ok(&self, queue: &ListOfSpeeches) -> (ok: bool)
        ensures
            ok == self@.queue_ok(queue_view(queue@)),
    {
        let mut i: usize = 0;
        while i < queue.len()
            invariant
                i <= queue@.len(),
                forall|k: int| 0 <= k < i ==> self@.point_ok(#[trigger] queue_view(queue@)[k]),
            decreases queue@.len() - i,
        {
            let point = &queue[i];
            assert(queue_view(queue@)[i as int] == point_view(*point));
            if !self.speech_is_ok(&point.0, false) || !self.block_is_ok(&point.1) {
                assert(!self@.point_ok(queue_view(queue@)[i as int]));
                return false;
            }
            i = i + 1;
        }
        true
    }

    /// Whether the registry is sound.
    fn speakers_are_ok(&self) -> (ok: bool)
        ensures
            ok == self@.speakers_ok(),
    {
        assert(self@.speakers == speakers_view(self.speakers@));
        if !names_differ(&self.speakers) {
            return false;
        }
        let mut i: usize = 0;
        while i < self.speakers.len()
            invariant
                i <= self.speakers@.len(),
                forall|k: int|
                    0 <= k < i ==> (#[trigger] self@.speakers[k]).total_speaking_time
                        <= self@.duration && self@.speakers[k].speeches_given
                        <= self@.speeches_added,
            decreases self.speakers@.len() - i,
        {
            if self.speakers[i].total_speaking_time > self.duration
                || self.speakers[i].speeches_given > self.speeches_added {
                assert(self@.speakers[i as int] == self.speakers@[i as int]@);
                return false;
            }
            assert(self@.speakers[i as int] == self.speakers@[i as int]@);
            i = i + 1;
        }
        true
    }

    /// Whether no two speeches of the discussion have the same tiebreak.
    fn tiebreaks_all_differ(&self) -> (ok: bool)
        ensures
            ok == self@.tiebreaks_differ(),
    {
        let mut list: Vec<u64> = Vec::new();
        match &self.current_new_point {
            Some(point) => {
                list.push(point.order_tiebreak);
                assert(list@.drop_last() =~= Seq::<u64>::empty());
            },
            None => {},
        }
        let ghost first = list@;
        push_block_tiebreaks(&mut list, &self.first_response_block);
        let ghost second = list@;
        push_queue_tiebreaks(&mut list, &self.upcoming_speeches);
        let ghost third = list@;
        push_queue_tiebreaks(&mut list, &self.past_speeches);
        proof {
            assert forall|value: u64| #[trigger]
                tally(list@, counts_value(value)) == self@.speeches_with_tiebreak(value) by {
                assert(tally(Seq::<u64>::empty(), counts_value(value)) == 0);
                assert(tally(second, counts_value(value)) == tally(first, counts_value(value))
                    + tally(self.first_response_block@, counts_tiebreak(value)));
                assert(tally(third, counts_value(value)) == tally(second, counts_value(value))
                    + tally(queue_view(self.upcoming_speeches@), point_counts_tiebreak(value)));
            }
        }
        let ok = all_differ(&list);
        proof {
            if ok {
                assert forall|value: u64| #[trigger]
                    self@.speeches_with_tiebreak(value) <= 1 by {
                    assert(tally(list@, counts_value(value)) <= 1);
                }
            } else {
                let value = choose|value: u64| !(#[trigger] tally(list@, counts_value(value)) <= 1);
                assert(self@.speeches_with_tiebreak(value) > 1);
            }
        }
        ok
    }

    /// Whether the discussion is in a sound state.
    pub fn is_wf(&self) -> (ok: bool)
        ensures
            ok == self.wf(),
    {
        let idle = self.current_new_point.is_none() && self.first_response_block.len() == 0;
        let current_ok = match &self.current_new_point {
            Some(point) => self.speech_is_ok(point, false),
            None => true,
        };
        self.speakers_are_ok() && self.tiebreaks_all_differ() && current_ok && self.block_is_ok(
            &self.first_response_block,
        )
            && self.queue_is_ok(&self.upcoming_speeches) && self.queue_is_ok(&self.past_speeches)
            && (!idle || self.upcoming_speeches.len() == 0) && (self.current_new_point.is_some()
            || self.first_response_block.len() == 0 || self.past_speeches.len() > 0)
    }
}

} // verus!
