//! Choosing activities that do not overlap.

use vstd::prelude::*;

verus! {

/// An activity with the time at which it starts and the time at which it
/// ends.
#[derive(Debug)]
pub struct Activity {
    start: usize,
    end: usize,
}

/// The position of the first activity from `from` on that starts no earlier
/// than the activity at `position` ends, or the number of activities where
/// there is none.
pub open spec fn next_after(activities: Seq<Activity>, position: int, from: int) -> int
    decreases activities.len() - from,
{
    if from >= activities.len() {
        activities.len() as int
    } else if activities[from].starts() >= activities[position].ends() {
        from
    } else {
        next_after(activities, position, from + 1)
    }
}

/// The positions of the activities that are chosen after the one at
/// `position`: the first that starts no earlier than that one ends, and what
/// is chosen after it.
pub open spec fn chosen_after(activities: Seq<Activity>, position: int) -> Seq<int>
    decreases activities.len() - position,
{
    if position < 0 || position >= activities.len() {
        Seq::empty()
    } else {
        let next = next_after(activities, position, position + 1);
        if position < next < activities.len() {
            Seq::empty().push(next) + chosen_after(activities, next)
        } else {
            Seq::empty()
        }
    }
}

/// The next activity comes after `from`, and none between starts late
/// enough.
pub proof fn lemma_next_after(activities: Seq<Activity>, position: int, from: int)
    requires
        0 <= position < activities.len(),
        0 <= from,
    ensures
        from <= next_after(activities, position, from) || next_after(activities, position, from)
            == activities.len(),
        next_after(activities, position, from) <= activities.len(),
        next_after(activities, position, from) < activities.len() ==> activities[next_after(
            activities,
            position,
            from,
        )].starts() >= activities[position].ends(),
    decreases activities.len() - from,
{
    if from < activities.len() && activities[from].starts() < activities[position].ends() {
        lemma_next_after(activities, position, from + 1);
    }
}

/// Each chosen activity starts no earlier than the one before it ends, and
/// the first no earlier than the activity at `position` ends.
pub proof fn lemma_chosen_follow(activities: Seq<Activity>, position: int)
    requires
        0 <= position < activities.len(),
    ensures
        forall|i: int|
            0 <= i < chosen_after(activities, position).len() ==> ({
                let at = #[trigger] chosen_after(activities, position)[i];
                let before = if i == 0 {
                    position
                } else {
                    chosen_after(activities, position)[i - 1]
                };
                &&& 0 <= before < at < activities.len()
                &&& activities[at].starts() >= activities[before].ends()
            }),
    decreases activities.len() - position,
{
    let next = next_after(activities, position, position + 1);
    lemma_next_after(activities, position, position + 1);
    if position < next < activities.len() {
        lemma_chosen_follow(activities, next);
        let rest = chosen_after(activities, next);
        let all = chosen_after(activities, position);
        assert(all =~= Seq::empty().push(next) + rest);
        assert forall|i: int| 0 <= i < all.len() implies {
            let at = #[trigger] all[i];
            let before = if i == 0 {
                position
            } else {
                all[i - 1]
            };
            &&& 0 <= before < at < activities.len()
            &&& activities[at].starts() >= activities[before].ends()
        } by {
            if i > 0 {
                assert(all[i] == rest[i - 1]);
                if i > 1 {
                    assert(all[i - 1] == rest[i - 2]);
                }
            }
        }
    }
}

impl Activity {
    /// The time at which the activity starts.
    pub closed spec fn starts(&self) -> usize {
        self.start
    }

    /// The time at which the activity ends.
    pub closed spec fn ends(&self) -> usize {
        self.end
    }

    /// Creates an activity from `start` to `end`.
    pub fn new(start: usize, end: usize) -> (activity: Self)
        ensures
            activity.starts() == start,
            activity.ends() == end,
    {
        Activity { start, end }
    }

    /// Creates the activities whose start times and end times stand at the
    /// same place of the two lists, as many as the shorter list has.
    pub fn from_list(starts: Vec<usize>, ends: Vec<usize>) -> (activities: Vec<Self>)
        ensures
            activities@.len() == if starts@.len() <= ends@.len() {
                starts@.len()
            } else {
                ends@.len()
            },
            forall|i: int|
                0 <= i < activities@.len() ==> (#[trigger] activities@[i]).starts() == starts@[i]
                    && activities@[i].ends() == ends@[i],
    {
        let mut activities: Vec<Activity> = Vec::new();
        let mut i: usize = 0;
        while i < starts.len() && i < ends.len()
            invariant
                i <= starts@.len(),
                i <= ends@.len(),
                activities@.len() == i,
                forall|k: int|
                    0 <= k < i ==> (#[trigger] activities@[k]).starts() == starts@[k]
                        && activities@[k].ends() == ends@[k],
            decreases starts@.len() - i,
        {
            activities.push(Activity::new(starts[i], ends[i]));
            i += 1;
        }
        activities
    }

    /// Chooses activities after the one at `position` so that none
    /// overlaps the one chosen before it: each time the first activity that
    /// starts no earlier than the last chosen one ends. The activities are
    /// meant to stand in the order of their end times.
    pub fn maximum_set(activities: &[Activity], position: usize) -> (set: Vec<&Activity>)
        ensures
            set@.len() == chosen_after(activities@, position as int).len(),
            forall|i: int|
                0 <= i < set@.len() ==> *#[trigger] set@[i] == activities@[chosen_after(
                    activities@,
                    position as int,
                )[i]],
    {
        let mut set: Vec<&Activity> = Vec::new();
        let mut last = position;
        let ghost all = chosen_after(activities@, position as int);
        assert(Seq::<int>::empty() + all =~= all);
        while last < activities.len()
            invariant
                set@.len() <= all.len(),
                all == chosen_after(activities@, position as int),
                forall|i: int| 0 <= i < set@.len() ==> *#[trigger] set@[i] == activities@[all[i]],
                last < activities@.len() ==> all.subrange(0, set@.len() as int) + chosen_after(
                    activities@,
                    last as int,
                ) == all,
                last >= activities@.len() ==> set@.len() == all.len(),
            decreases activities@.len() - last,
        {
            let mut next = last + 1;
            while next < activities.len() && activities[next].start < activities[last].end
                invariant
                    last < next <= activities@.len(),
                    next_after(activities@, last as int, next as int) == next_after(
                        activities@,
                        last as int,
                        last + 1,
                    ),
                decreases activities@.len() - next,
            {
                next += 1;
            }
            let ghost taken = all.subrange(0, set@.len() as int);
            let ghost rest = chosen_after(activities@, last as int);
            if next < activities.len() {
                proof {
                    assert(rest =~= Seq::empty().push(next as int) + chosen_after(
                        activities@,
                        next as int,
                    ));
                    assert(all[set@.len() as int] == next);
                    assert(all.subrange(0, (set@.len() + 1) as int) + chosen_after(activities@, next as int)
                        =~= all);
                }
                set.push(&activities[next]);
            } else {
                proof {
                    assert(rest =~= Seq::<int>::empty());
                    assert(taken + rest =~= taken);
                }
            }
            last = next;
        }
        proof {
            if position >= activities@.len() {
                assert(all =~= Seq::<int>::empty());
            }
        }
        set
    }
}

} // verus!
