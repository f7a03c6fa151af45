//! The buffer of the barrier: entry sets in the order of their epochs, and
//! the map from epochs to entry sets that contracts speak of.

use vstd::prelude::*;

use crate::channel::{entries_at, entries_valid, has_sender, is_oldest, Arrival};

verus! {

/// The frames held for one epoch, in the order of their arrival.
pub(crate) struct Pending<T> {
    pub(crate) epoch: u64,
    pub(crate) frames: Vec<Arrival<T>>,
}

/// Some entry of `buffer` is for `epoch`.
pub(crate) open spec fn holds<T>(buffer: Seq<Pending<T>>, epoch: u64) -> bool {
    exists|i: int| 0 <= i < buffer.len() && (#[trigger] buffer[i]).epoch == epoch
}

/// The place of `epoch` in `buffer`.
pub(crate) open spec fn place_of<T>(buffer: Seq<Pending<T>>, epoch: u64) -> int {
    choose|i: int| 0 <= i < buffer.len() && (#[trigger] buffer[i]).epoch == epoch
}

/// The buffer as a map from epochs to their entries.
pub(crate) open spec fn held_of<T>(buffer: Seq<Pending<T>>) -> Map<u64, Seq<Arrival<T>>> {
    Map::new(
        |epoch: u64| holds(buffer, epoch),
        |epoch: u64| buffer[place_of(buffer, epoch)].frames@,
    )
}

/// The epochs of `buffer` rise from front to back.
pub(crate) open spec fn rising<T>(buffer: Seq<Pending<T>>) -> bool {
    forall|i: int, j: int|
        0 <= i < j < buffer.len() ==> (#[trigger] buffer[i]).epoch < (#[trigger] buffer[j]).epoch
}

/// In a rising buffer each epoch stands at one place only.
pub(crate) proof fn lemma_place<T>(buffer: Seq<Pending<T>>, i: int)
    requires
        rising(buffer),
        0 <= i < buffer.len(),
    ensures
        holds(buffer, buffer[i].epoch),
        place_of(buffer, buffer[i].epoch) == i,
        held_of(buffer).dom().contains(buffer[i].epoch),
        held_of(buffer)[buffer[i].epoch] == buffer[i].frames@,
{
    // the place chosen for the epoch can be neither before nor behind `i`
    let j = place_of(buffer, buffer[i].epoch);
    assert(j == i);
}

/// The buffer is ordered by epoch and every entry set is valid.
pub(crate) open spec fn well_formed<T>(buffer: Seq<Pending<T>>, transmitters: usize) -> bool {
    &&& rising(buffer)
    &&& forall|i: int|
        0 <= i < buffer.len() ==> entries_valid(
            (#[trigger] buffer[i]).frames@,
            buffer[i].epoch,
            transmitters,
        )
}

/// An arrival that joins the entries at place `i`, from a transmitter that
/// is not yet among them, leaves the buffer well formed and changes the
/// map at that epoch only.
pub(crate) proof fn lemma_joined<T>(
    before: Seq<Pending<T>>,
    after: Seq<Pending<T>>,
    i: int,
    arrival: Arrival<T>,
    transmitters: usize,
)
    requires
        well_formed(before, transmitters),
        0 <= i < before.len(),
        arrival.frame.epoch == before[i].epoch,
        arrival.sender_id < transmitters,
        !has_sender(before[i].frames@, arrival.sender_id),
        after.len() == before.len(),
        after[i].epoch == before[i].epoch,
        after[i].frames@ == before[i].frames@.push(arrival),
        forall|j: int| 0 <= j < after.len() && j != i ==> after[j] == before[j],
    ensures
        well_formed(after, transmitters),
        held_of(after) == held_of(before).insert(
            arrival.frame.epoch,
            entries_at(held_of(before), arrival.frame.epoch).push(arrival),
        ),
{
    assert(rising(after));
    assert forall|j: int| 0 <= j < after.len() implies entries_valid(
        (#[trigger] after[j]).frames@,
        after[j].epoch,
        transmitters,
    ) by {
        if j == i {
            // the entries that were there keep their places, the arrival is new
            let entries = after[i].frames@;
            assert forall|a: int, b: int| 0 <= a < b < entries.len() implies (
            #[trigger] entries[a]).sender_id != (#[trigger] entries[b]).sender_id by {}
        }
    }
    lemma_place(before, i);
    lemma_held_after_change(before, after, i);
}

/// An arrival for an epoch that the buffer does not hold, entered at the
/// place `i` that keeps the epochs rising, leaves the buffer well formed
/// and adds its epoch to the map.
pub(crate) proof fn lemma_opened<T>(
    before: Seq<Pending<T>>,
    after: Seq<Pending<T>>,
    i: int,
    arrival: Arrival<T>,
    transmitters: usize,
)
    requires
        well_formed(before, transmitters),
        0 <= i <= before.len(),
        arrival.sender_id < transmitters,
        forall|j: int| 0 <= j < i ==> (#[trigger] before[j]).epoch < arrival.frame.epoch,
        i < before.len() ==> arrival.frame.epoch < before[i].epoch,
        after.len() == before.len() + 1,
        after[i].epoch == arrival.frame.epoch,
        after[i].frames@ == seq![arrival],
        forall|j: int| 0 <= j < i ==> after[j] == before[j],
        forall|j: int| i < j < after.len() ==> after[j] == before[j - 1],
    ensures
        well_formed(after, transmitters),
        held_of(after) == held_of(before).insert(
            arrival.frame.epoch,
            entries_at(held_of(before), arrival.frame.epoch).push(arrival),
        ),
{
    let epoch = arrival.frame.epoch;
    assert(!holds(before, epoch)) by {
        // every epoch before place `i` is older, every other one younger
        if holds(before, epoch) {
            let j = place_of(before, epoch);
            assert(before[j].epoch < epoch || epoch < before[j].epoch);
        }
    }
    assert(rising(after)) by {
        assert forall|a: int, b: int| 0 <= a < b < after.len() implies (#[trigger] after[a]).epoch
            < (#[trigger] after[b]).epoch by {
            // where the entries came from
            let from_a = if a < i {
                a
            } else {
                a - 1
            };
            let from_b = if b < i {
                b
            } else {
                b - 1
            };
            assert(a != i ==> after[a] == before[from_a]);
            assert(b != i ==> after[b] == before[from_b]);
        }
    }
    assert forall|j: int| 0 <= j < after.len() implies entries_valid(
        (#[trigger] after[j]).frames@,
        after[j].epoch,
        transmitters,
    ) by {
        assert(j == i || after[j] == before[j] || after[j] == before[j - 1]);
    }
    lemma_held_after_insert(before, after, i);
}

/// Replacing the entries at place `i` changes the map at that epoch only.
proof fn lemma_held_after_change<T>(
    before: Seq<Pending<T>>,
    after: Seq<Pending<T>>,
    i: int,
)
    requires
        rising(before),
        rising(after),
        0 <= i < before.len(),
        after.len() == before.len(),
        after[i].epoch == before[i].epoch,
        forall|j: int| 0 <= j < after.len() && j != i ==> after[j] == before[j],
    ensures
        held_of(after) == held_of(before).insert(before[i].epoch, after[i].frames@),
{
    let target = held_of(before).insert(before[i].epoch, after[i].frames@);
    assert forall|epoch: u64| held_of(after).dom().contains(epoch) <==> target.dom().contains(
        epoch,
    ) by {
        // an epoch stands at the same place before and after
        if holds(after, epoch) {
            let j = place_of(after, epoch);
            assert(before[j].epoch == epoch);
        }
        if holds(before, epoch) {
            let j = place_of(before, epoch);
            assert(after[j].epoch == epoch);
        }
    }
    assert forall|epoch: u64| held_of(after).dom().contains(epoch) implies held_of(after)[epoch]
        == target[epoch] by {
        let j = place_of(after, epoch);
        lemma_place(after, j);
        lemma_place(before, j);
    }
}

/// A new entry at place `i` adds its epoch to the map.
proof fn lemma_held_after_insert<T>(
    before: Seq<Pending<T>>,
    after: Seq<Pending<T>>,
    i: int,
)
    requires
        rising(before),
        rising(after),
        0 <= i <= before.len(),
        after.len() == before.len() + 1,
        forall|j: int| 0 <= j < i ==> after[j] == before[j],
        forall|j: int| i < j < after.len() ==> after[j] == before[j - 1],
    ensures
        held_of(after) == held_of(before).insert(after[i].epoch, after[i].frames@),
{
    let target = held_of(before).insert(after[i].epoch, after[i].frames@);
    assert forall|epoch: u64| held_of(after).dom().contains(epoch) <==> target.dom().contains(
        epoch,
    ) by {
        // an epoch that was held stands at its place or one further back
        if holds(after, epoch) {
            let j = place_of(after, epoch);
            assert(j == i || before[j].epoch == epoch || before[j - 1].epoch == epoch);
        }
        if holds(before, epoch) {
            let j = place_of(before, epoch);
            assert(after[j].epoch == epoch || after[j + 1].epoch == epoch);
        }
    }
    assert forall|epoch: u64| held_of(after).dom().contains(epoch) implies held_of(after)[epoch]
        == target[epoch] by {
        let j = place_of(after, epoch);
        lemma_place(after, j);
        if j < i {
            lemma_place(before, j);
        } else if j > i {
            lemma_place(before, j - 1);
        }
    }
}

/// The epoch at the front of a rising buffer is the oldest one held, and
/// no other is.
pub(crate) proof fn lemma_front_is_oldest<T>(buffer: Seq<Pending<T>>)
    requires
        rising(buffer),
        buffer.len() > 0,
    ensures
        forall|epoch: u64| is_oldest(held_of(buffer), epoch) <==> epoch == buffer[0].epoch,
        held_of(buffer)[buffer[0].epoch] == buffer[0].frames@,
{
    lemma_place(buffer, 0);
    assert forall|other: u64| held_of(buffer).dom().contains(other) implies buffer[0].epoch
        <= other by {
        let j = place_of(buffer, other);
        assert(j == 0 || buffer[0].epoch < buffer[j].epoch);
    }
}

/// Taking the front entry away leaves the buffer well formed and takes its
/// epoch out of the map.
pub(crate) proof fn lemma_front_taken<T>(
    before: Seq<Pending<T>>,
    after: Seq<Pending<T>>,
    transmitters: usize,
)
    requires
        well_formed(before, transmitters),
        before.len() > 0,
        after == before.subrange(1, before.len() as int),
    ensures
        well_formed(after, transmitters),
        held_of(after) == held_of(before).remove(before[0].epoch),
{
    assert forall|j: int| 0 <= j < after.len() implies (#[trigger] after[j]) == before[j + 1] by {}
    assert forall|a: int, b: int| 0 <= a < b < after.len() implies (#[trigger] after[a]).epoch < (
    #[trigger] after[b]).epoch by {
        assert(before[a + 1].epoch < before[b + 1].epoch);
    }
    assert forall|j: int| 0 <= j < after.len() implies entries_valid(
        (#[trigger] after[j]).frames@,
        after[j].epoch,
        transmitters,
    ) by {
        assert(entries_valid(before[j + 1].frames@, before[j + 1].epoch, transmitters));
    }
    lemma_held_after_remove(before, after);
}

/// Taking the front entry away takes its epoch out of the map.
proof fn lemma_held_after_remove<T>(before: Seq<Pending<T>>, after: Seq<Pending<T>>)
    requires
        rising(before),
        rising(after),
        before.len() > 0,
        after.len() == before.len() - 1,
        forall|j: int| 0 <= j < after.len() ==> after[j] == before[j + 1],
    ensures
        held_of(after) == held_of(before).remove(before[0].epoch),
{
    let target = held_of(before).remove(before[0].epoch);
    assert forall|epoch: u64| held_of(after).dom().contains(epoch) <==> target.dom().contains(
        epoch,
    ) by {
        // an epoch behind the front stands one place further to the front
        if holds(after, epoch) {
            let j = place_of(after, epoch);
            assert(before[j + 1].epoch == epoch);
        }
        if holds(before, epoch) && epoch != before[0].epoch {
            let j = place_of(before, epoch);
            assert(after[j - 1].epoch == epoch);
        }
    }
    assert forall|epoch: u64| held_of(after).dom().contains(epoch) implies held_of(after)[epoch]
        == target[epoch] by {
        let j = place_of(after, epoch);
        lemma_place(after, j);
        lemma_place(before, j + 1);
    }
}

} // verus!
