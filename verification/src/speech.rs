//! Speakers and the turns they take.
//!
//! A discussion keeps one `Speaker` record for each name. A `Speech` refers
//! to its speaker by the record's position in the discussion's registry, so
//! that every speech of one speaker sees the same totals.

use vstd::prelude::*;

verus! {

/// What a discussion knows of one participant. Times are whole seconds.
#[derive(Debug, Clone, PartialEq, Eq)]
pub struct Speaker {
    pub name: String,
    /// Other names of this participant; no name is held twice.
    pub aliases: Vec<String>,
    pub total_speaking_time: u64,
    pub speeches_given: u64,
}

/// A speaker as a mathematical value.
pub struct SpeakerView {
    pub name: Seq<char>,
    pub aliases: Set<Seq<char>>,
    pub total_speaking_time: nat,
    pub speeches_given: nat,
}

/// The names that a list of strings holds.
pub open spec fn names_of(list: Seq<String>) -> Set<Seq<char>> {
    Set::new(|name: Seq<char>| exists|i: int| 0 <= i < list.len() && #[trigger] list[i]@ == name)
}

/// No name occurs twice in the list.
pub open spec fn names_distinct(list: Seq<String>) -> bool {
    forall|i: int, j: int|
        0 <= i < j < list.len() ==> #[trigger] list[i]@ != #[trigger] list[j]@
}

impl View for Speaker {
    type V = SpeakerView;

    open spec fn view(&self) -> SpeakerView {
        SpeakerView {
            name: self.name@,
            aliases: names_of(self.aliases@),
            total_speaking_time: self.total_speaking_time as nat,
            speeches_given: self.speeches_given as nat,
        }
    }
}

/// Whether `list` holds `name`.
fn holds_name(list: &Vec<String>, name: &String) -> (found: bool)
    ensures
        found == names_of(list@).contains(name@),
{
    let mut i: usize = 0;
    while i < list.len()
        invariant
            i <= list.len(),
            forall|j: int| 0 <= j < i ==> #[trigger] list[j]@ != name@,
        decreases list.len() - i,
    {
        if list[i] == *name {
            return true;
        }
        i = i + 1;
    }
    false
}

/// Adds `name` to `list` unless the list holds it already.
fn add_name(list: &mut Vec<String>, name: String)
    requires
        names_distinct(old(list)@),
    ensures
        names_distinct(final(list)@),
        names_of(final(list)@) == names_of(old(list)@).insert(name@),
{
    if !holds_name(list, &name) {
        list.push(name);
        assert(final(list)@[old(list)@.len() as int]@ == name@);
        assert forall|other: Seq<char>|
            names_of(old(list)@).insert(name@).contains(other) implies names_of(
            final(list)@,
        ).contains(other) by {
            if other != name@ {
                let i = choose|i: int| 0 <= i < old(list)@.len() && old(list)@[i]@ == other;
                assert(final(list)@[i]@ == other);
            }
        }
    }
    assert(names_of(final(list)@) =~= names_of(old(list)@).insert(name@));
}

impl Speaker {
    /// The speaker's aliases are all different.
    pub open spec fn wf(&self) -> bool {
        names_distinct(self.aliases@)
    }

    /// A speaker who has not spoken yet.
    pub fn new(name: String) -> (speaker: Self)
        ensures
            speaker.wf(),
            speaker@ == (SpeakerView {
                name: name@,
                aliases: Set::<Seq<char>>::empty(),
                total_speaking_time: 0,
                speeches_given: 0,
            }),
    {
        let speaker = Speaker {
            name: name,
            aliases: Vec::new(),
            total_speaking_time: 0,
            speeches_given: 0,
        };
        assert(speaker@.aliases =~= Set::<Seq<char>>::empty());
        speaker
    }

    /// Takes over another record of the same participant: its name and its
    /// aliases become aliases of this one, and its totals are added.
    pub fn merge_with(&mut self, other: Self)
        requires
            old(self).wf(),
            old(self).total_speaking_time + other.total_speaking_time <= u64::MAX,
            old(self).speeches_given + other.speeches_given <= u64::MAX,
        ensures
            final(self).wf(),
            final(self)@ == (SpeakerView {
                name: old(self)@.name,
                aliases: old(self)@.aliases.union(other@.aliases).insert(other@.name),
                total_speaking_time: old(self)@.total_speaking_time
                    + other@.total_speaking_time,
                speeches_given: old(self)@.speeches_given + other@.speeches_given,
            }),
    {
        let Speaker { name, aliases, total_speaking_time, speeches_given } = other;
        let mut theirs = aliases;
        let ghost all_theirs = names_of(theirs@);
        let ghost moved = Set::<Seq<char>>::empty();
        loop
            invariant
                names_distinct(self.aliases@),
                self.name == old(self).name,
                self.total_speaking_time == old(self).total_speaking_time,
                self.speeches_given == old(self).speeches_given,
                names_of(self.aliases@) == old(self)@.aliases.union(moved),
                moved.union(names_of(theirs@)) == all_theirs,
            ensures
                names_of(self.aliases@) == old(self)@.aliases.union(all_theirs),
            decreases theirs.len(),
        {
            let ghost before = theirs@;
            match theirs.pop() {
                Some(alias) => {
                    proof {
                        assert(before[before.len() - 1]@ == alias@);
                        assert forall|n: Seq<char>|
                            moved.insert(alias@).union(names_of(theirs@)).contains(
                                n,
                            ) == all_theirs.contains(n) by {
                            if names_of(before).contains(n) {
                                let i = choose|i: int| 0 <= i < before.len() && before[i]@ == n;
                                if i < before.len() - 1 {
                                    assert(theirs@[i]@ == n);
                                }
                            }
                            if names_of(theirs@).contains(n) {
                                let i = choose|i: int|
                                    0 <= i < theirs@.len() && theirs@[i]@ == n;
                                assert(before[i]@ == n);
                            }
                        }
                        assert(moved.insert(alias@).union(names_of(theirs@)) =~= all_theirs);
                        assert(old(self)@.aliases.union(moved).insert(alias@) =~= old(
                            self,
                        )@.aliases.union(moved.insert(alias@)));
                        moved = moved.insert(alias@);
                    }
                    add_name(&mut self.aliases, alias);
                },
                None => {
                    proof {
                        assert(names_of(theirs@) =~= Set::<Seq<char>>::empty());
                        assert(moved =~= all_theirs);
                    }
                    break ;
                },
            }
        }
        add_name(&mut self.aliases, name);
        self.total_speaking_time = self.total_speaking_time + total_speaking_time;
        self.speeches_given = self.speeches_given + speeches_given;
    }

    /// Charges one more second of speaking to this speaker.
    pub fn tick_speaking_time(&mut self)
        requires
            old(self).total_speaking_time < u64::MAX,
        ensures
            final(self).total_speaking_time == old(self).total_speaking_time + 1,
            final(self).name == old(self).name,
            final(self).aliases == old(self).aliases,
            final(self).speeches_given == old(self).speeches_given,
    {
        self.total_speaking_time = self.total_speaking_time + 1;
    }
}

/// One turn on the floor.
#[derive(Debug, Clone, PartialEq, Eq)]
pub struct Speech {
    /// The position of the speaker's record in the discussion's registry.
    pub speaker: usize,
    /// Seconds spoken in this turn.
    pub duration: u64,
    pub is_response: bool,
    /// How many speeches the discussion had taken when this one came.
    pub order_tiebreak: u64,
}

impl Speech {
    /// Charges one more second to this turn and to the one who takes it.
    pub fn tick_clock(&mut self, speaker: &mut Speaker)
        requires
            old(self).duration < u64::MAX,
            old(speaker).total_speaking_time < u64::MAX,
        ensures
            *final(self) == (Speech { duration: (old(self).duration + 1) as u64, ..*old(self) }),
            final(speaker).total_speaking_time == old(speaker).total_speaking_time + 1,
            final(speaker).name == old(speaker).name,
            final(speaker).aliases == old(speaker).aliases,
            final(speaker).speeches_given == old(speaker).speeches_given,
    {
        self.duration = self.duration + 1;
        speaker.tick_speaking_time();
    }
}

} // verus!
