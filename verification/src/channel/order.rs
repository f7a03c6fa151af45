//! The order in which a barrier gives epochs free over its whole life.

use vstd::prelude::*;

use crate::channel::{
    after_insert, after_release, complete, entries_at, entries_valid, has_sender, insert_outcome,
    is_oldest, is_ready, released_by, Arrival,
};
use crate::shmem::IqFrame;

verus! {

/// One step in the life of a barrier.
pub enum Step<T> {
    /// A frame arrives from a transmitter.
    Insert {
        /// The index of the transmitter.
        sender: usize,
        /// The frame that arrives.
        frame: IqFrame<T>,
    },
    /// The barrier is asked for the oldest epoch.
    Release,
}

/// `step` is the arrival of a frame of `epoch` from `sender`.
pub open spec fn inserts<T>(step: Step<T>, sender: usize, epoch: u64) -> bool {
    step matches Step::Insert { sender: s, frame } && s == sender && frame.epoch == epoch
}

/// Among `steps` a frame of `epoch` arrives from `sender`.
pub open spec fn inserted<T>(steps: Seq<Step<T>>, sender: usize, epoch: u64) -> bool {
    exists|i: int| 0 <= i < steps.len() && inserts(#[trigger] steps[i], sender, epoch)
}

/// Each transmitter delivers its frames in the order of their epochs.
pub open spec fn rising_per_sender<T>(steps: Seq<Step<T>>) -> bool {
    forall|i: int, j: int, sender: usize, first: u64, second: u64|
        0 <= i < j < steps.len() && #[trigger] inserts(steps[i], sender, first)
            && #[trigger] inserts(steps[j], sender, second) ==> first < second
}

/// What a barrier for `transmitters` transmitters, empty at first, holds
/// after `steps`.
pub open spec fn held_after<T>(transmitters: usize, steps: Seq<Step<T>>) -> Map<
    u64,
    Seq<Arrival<T>>,
>
    decreases steps.len(),
{
    if steps.len() == 0 {
        Map::empty()
    } else {
        let held = held_after(transmitters, steps.drop_last());
        match steps.last() {
            Step::Insert { sender, frame } => after_insert(held, transmitters, sender, frame),
            Step::Release => after_release(held, transmitters),
        }
    }
}

/// The epochs that a barrier for `transmitters` transmitters, empty at
/// first, gives free during `steps`, in the order in which it does.
pub open spec fn released_during<T>(transmitters: usize, steps: Seq<Step<T>>) -> Seq<u64>
    decreases steps.len(),
{
    if steps.len() == 0 {
        Seq::empty()
    } else {
        let before = released_during(transmitters, steps.drop_last());
        match steps.last() {
            Step::Insert { .. } => before,
            Step::Release => match released_by(
                held_after(transmitters, steps.drop_last()),
                transmitters,
            ) {
                Some(epoch) => before.push(epoch),
                None => before,
            },
        }
    }
}

/// What holds of a barrier after any steps in which the transmitters
/// deliver in order: the entry sets are valid, every entry and every epoch
/// given free goes back to arrivals among the steps, the epochs given free
/// rise, and every epoch still held is younger than all of them.
spec fn in_order<T>(transmitters: usize, steps: Seq<Step<T>>) -> bool {
    let held = held_after(transmitters, steps);
    let released = released_during(transmitters, steps);
    &&& forall|epoch: u64| #[trigger]
        held.dom().contains(epoch) ==> entries_valid(held[epoch], epoch, transmitters)
    &&& forall|epoch: u64, x: int|
        held.dom().contains(epoch) && 0 <= x < held[epoch].len() ==> inserted(
            steps,
            (#[trigger] held[epoch][x]).sender_id,
            epoch,
        )
    &&& forall|a: int, sender: usize|
        0 <= a < released.len() && sender < transmitters ==> #[trigger] inserted(
            steps,
            sender,
            released[a],
        )
    &&& forall|a: int, b: int| 0 <= a < b < released.len() ==> released[a] < released[b]
    &&& forall|a: int, epoch: u64|
        0 <= a < released.len() && #[trigger] held.dom().contains(epoch) ==> #[trigger] released[a]
            < epoch
}

/// An arrival among the first steps is an arrival among all steps.
proof fn lemma_inserted_earlier<T>(steps: Seq<Step<T>>, sender: usize, epoch: u64)
    requires
        steps.len() > 0,
        inserted(steps.drop_last(), sender, epoch),
    ensures
        inserted(steps, sender, epoch),
{
    let i = choose|i: int|
        0 <= i < steps.drop_last().len() && inserts(#[trigger] steps.drop_last()[i], sender, epoch);
    assert(inserts(steps[i], sender, epoch));
}

/// The invariant holds after every run of steps in which the transmitters
/// deliver in order.
proof fn lemma_in_order<T>(transmitters: usize, steps: Seq<Step<T>>)
    requires
        rising_per_sender(steps),
    ensures
        in_order(transmitters, steps),
    decreases steps.len(),
{
    if steps.len() > 0 {
        let front = steps.drop_last();
        let last = steps.len() - 1;
        assert(rising_per_sender(front)) by {
            assert forall|i: int, j: int, sender: usize, first: u64, second: u64|
                0 <= i < j < front.len() && #[trigger] inserts(front[i], sender, first)
                    && #[trigger] inserts(front[j], sender, second) implies first < second by {
                assert(front[i] == steps[i] && front[j] == steps[j]);
            }
        }
        lemma_in_order(transmitters, front);
        let before = held_after(transmitters, front);
        let held = held_after(transmitters, steps);
        let given = released_during(transmitters, front);
        let released = released_during(transmitters, steps);
        assert forall|sender: usize, epoch: u64| inserted(front, sender, epoch) implies inserted(
            steps,
            sender,
            epoch,
        ) by {
            lemma_inserted_earlier(steps, sender, epoch);
        }
        match steps.last() {
            Step::Insert { sender, frame } => {
                let epoch = frame.epoch;
                assert(released == given);
                if insert_outcome(before, transmitters, sender, epoch) is Ok {
                    let arrival = Arrival { frame, sender_id: sender };
                    let entries = entries_at(before, epoch).push(arrival);
                    assert(held == before.insert(epoch, entries));
                    assert(inserts(steps[last], sender, epoch));
                    assert(entries_valid(entries, epoch, transmitters)) by {
                        if before.dom().contains(epoch) {
                            assert(entries_valid(before[epoch], epoch, transmitters));
                        }
                        assert forall|k: int, l: int| 0 <= k < l < entries.len() implies (
                        #[trigger] entries[k]).sender_id != (#[trigger] entries[l]).sender_id by {
                            if l < entries.len() - 1 {
                                assert(entries[k] == before[epoch][k]);
                                assert(entries[l] == before[epoch][l]);
                            } else {
                                assert(entries[k] == entries_at(before, epoch)[k]);
                            }
                        }
                    }
                    assert forall|other: u64, x: int|
                        held.dom().contains(other) && 0 <= x < held[other].len() implies inserted(
                        steps,
                        (#[trigger] held[other][x]).sender_id,
                        other,
                    ) by {
                        if other == epoch && x == entries.len() - 1 {
                        } else if other == epoch {
                            assert(held[other][x] == before[epoch][x]);
                            assert(inserted(front, before[epoch][x].sender_id, epoch));
                        } else {
                            assert(inserted(front, before[other][x].sender_id, other));
                        }
                    }
                    assert forall|a: int, other: u64|
                        0 <= a < released.len() && #[trigger] held.dom().contains(
                            other,
                        ) implies #[trigger] released[a] < other by {
                        if other == epoch {
                            // the sender delivered the epoch given free before this one
                            let earlier = given[a];
                            assert(inserted(front, sender, earlier));
                            let i = choose|i: int|
                                0 <= i < front.len() && inserts(
                                    #[trigger] front[i],
                                    sender,
                                    earlier,
                                );
                            assert(inserts(steps[i], sender, earlier));
                        } else {
                            assert(before.dom().contains(other));
                        }
                    }
                } else {
                    assert(held == before);
                }
            },
            Step::Release => {
                if is_ready(before, transmitters) {
                    let epoch = released_by(before, transmitters)->0;
                    assert(is_oldest(before, epoch));
                    assert(complete(before[epoch], transmitters)) by {
                        let ready = choose|ready: u64|
                            is_oldest(before, ready) && complete(before[ready], transmitters);
                        assert(ready == epoch);
                    }
                    assert(held == before.remove(epoch));
                    assert(released == given.push(epoch));
                    assert forall|a: int, sender: usize|
                        0 <= a < released.len() && sender < transmitters implies (
                    #[trigger] inserted(steps, sender, released[a])) by {
                        if a < given.len() {
                            assert(inserted(front, sender, given[a]));
                        } else {
                            assert(has_sender(before[epoch], sender));
                            let entries = before[epoch];
                            let x = choose|x: int|
                                0 <= x < entries.len() && #[trigger] entries[x].sender_id == sender;
                            assert(inserted(front, before[epoch][x].sender_id, epoch));
                        }
                    }
                    assert forall|a: int, b: int| 0 <= a < b < released.len() implies released[a]
                        < released[b] by {
                        if b == given.len() {
                            assert(given[a] < epoch);
                        }
                    }
                    assert forall|other: u64, x: int|
                        held.dom().contains(other) && 0 <= x < held[other].len() implies inserted(
                        steps,
                        (#[trigger] held[other][x]).sender_id,
                        other,
                    ) by {
                        assert(inserted(front, before[other][x].sender_id, other));
                    }
                    assert forall|a: int, other: u64|
                        0 <= a < released.len() && #[trigger] held.dom().contains(
                            other,
                        ) implies #[trigger] released[a] < other by {
                        assert(before.dom().contains(other));
                        if a < given.len() {
                            assert(given[a] < other);
                        }
                    }
                } else {
                    assert(held == before);
                    assert(released == given);
                    assert forall|other: u64, x: int|
                        held.dom().contains(other) && 0 <= x < held[other].len() implies inserted(
                        steps,
                        (#[trigger] held[other][x]).sender_id,
                        other,
                    ) by {
                        assert(inserted(front, before[other][x].sender_id, other));
                    }
                }
            },
        }
    }
}

/// Epochs leave the barrier in their order: where every transmitter
/// delivers its frames in the order of their epochs, an epoch that the
/// barrier gives free is older than every epoch that it gives free later.
pub proof fn lemma_released_in_order<T>(transmitters: usize, steps: Seq<Step<T>>, a: int, b: int)
    requires
        rising_per_sender(steps),
        0 <= a < b < released_during(transmitters, steps).len(),
    ensures
        released_during(transmitters, steps)[a] < released_during(transmitters, steps)[b],
{
    lemma_in_order(transmitters, steps);
}

} // verus!
