//! The channel combiner: the epoch barrier and the superposition.
//!
//! Frames arrive from the transmitters one by one. The barrier keeps them
//! by epoch and gives an epoch free once it is the oldest one held and
//! every transmitter has delivered its frame for it. The entries of that
//! epoch are then superposed into one frame for each receiver.

use vstd::prelude::*;
use vstd::set_lib::{lemma_int_range, lemma_len_subset, lemma_subset_equality, set_int_range};

mod buffer;
pub mod combine;
pub mod order;

use crate::channel::buffer::{
    held_of, lemma_front_is_oldest, lemma_front_taken, lemma_joined, lemma_opened, lemma_place,
    place_of, well_formed, Pending,
};
use crate::shmem::IqFrame;

verus! {

/// A frame together with the transmitter it came from.
#[derive(Debug)]
pub struct Arrival<T> {
    /// The frame as it arrived.
    pub frame: IqFrame<T>,
    /// The index of the transmitter.
    pub sender_id: usize,
}

/// Why a frame was not taken into the barrier.
#[derive(Debug, Clone, Copy, PartialEq, Eq, Structural)]
pub enum InsertError {
    /// The sender index is not below the number of transmitters.
    UnknownSender,
    /// The transmitter has already delivered a frame for this epoch.
    Duplicate,
}

/// An entry with transmitter `sender` is among `entries`.
pub open spec fn has_sender<T>(entries: Seq<Arrival<T>>, sender: usize) -> bool {
    exists|k: int| 0 <= k < entries.len() && #[trigger] entries[k].sender_id == sender
}

/// What holds of the entries kept for `epoch`: there is at least one, each
/// is a frame of that epoch from a known transmitter, and no transmitter
/// occurs twice.
pub open spec fn entries_valid<T>(
    entries: Seq<Arrival<T>>,
    epoch: u64,
    transmitters: usize,
) -> bool {
    &&& entries.len() > 0
    &&& forall|k: int|
        0 <= k < entries.len() ==> (#[trigger] entries[k]).sender_id < transmitters
            && entries[k].frame.epoch == epoch
    &&& forall|k: int, l: int|
        0 <= k < l < entries.len() ==> (#[trigger] entries[k]).sender_id
            != (#[trigger] entries[l]).sender_id
}

/// Every transmitter has an entry among `entries`.
pub open spec fn complete<T>(entries: Seq<Arrival<T>>, transmitters: usize) -> bool {
    forall|sender: usize| sender < transmitters ==> has_sender(entries, sender)
}

/// `epoch` is the oldest epoch for which `held` keeps entries.
pub open spec fn is_oldest<T>(held: Map<u64, Seq<Arrival<T>>>, epoch: u64) -> bool {
    &&& held.dom().contains(epoch)
    &&& forall|other: u64| held.dom().contains(other) ==> epoch <= other
}

/// The entries kept for `epoch`, none where the epoch is not held.
pub open spec fn entries_at<T>(held: Map<u64, Seq<Arrival<T>>>, epoch: u64) -> Seq<Arrival<T>> {
    if held.dom().contains(epoch) {
        held[epoch]
    } else {
        Seq::empty()
    }
}

/// What `insert` answers for a frame of `epoch` from `sender`.
pub open spec fn insert_outcome<T>(
    held: Map<u64, Seq<Arrival<T>>>,
    transmitters: usize,
    sender: usize,
    epoch: u64,
) -> Result<(), InsertError> {
    if sender >= transmitters {
        Err(InsertError::UnknownSender)
    } else if has_sender(entries_at(held, epoch), sender) {
        Err(InsertError::Duplicate)
    } else {
        Ok(())
    }
}

/// What a barrier that holds `held` holds once a frame from `sender` has
/// been handed to it: the frame behind the entries of its epoch where it
/// is taken, the same as before where it is refused.
pub open spec fn after_insert<T>(
    held: Map<u64, Seq<Arrival<T>>>,
    transmitters: usize,
    sender: usize,
    frame: IqFrame<T>,
) -> Map<u64, Seq<Arrival<T>>> {
    if insert_outcome(held, transmitters, sender, frame.epoch) is Ok {
        held.insert(
            frame.epoch,
            entries_at(held, frame.epoch).push(Arrival { frame, sender_id: sender }),
        )
    } else {
        held
    }
}

/// The oldest epoch held has an entry from every transmitter.
pub open spec fn is_ready<T>(held: Map<u64, Seq<Arrival<T>>>, transmitters: usize) -> bool {
    exists|epoch: u64| is_oldest(held, epoch) && complete(held[epoch], transmitters)
}

/// The epoch that a barrier that holds `held` gives free when asked: the
/// oldest one, where it is complete.
pub open spec fn released_by<T>(held: Map<u64, Seq<Arrival<T>>>, transmitters: usize) -> Option<
    u64,
> {
    if is_ready(held, transmitters) {
        Some(choose|epoch: u64| is_oldest(held, epoch))
    } else {
        None
    }
}

/// What a barrier that holds `held` holds once it has been asked for the
/// oldest epoch.
pub open spec fn after_release<T>(
    held: Map<u64, Seq<Arrival<T>>>,
    transmitters: usize,
) -> Map<u64, Seq<Arrival<T>>> {
    match released_by(held, transmitters) {
        Some(epoch) => held.remove(epoch),
        None => held,
    }
}

/// A valid entry set has at most one entry for each transmitter, so it is
/// complete just when it has as many entries as there are transmitters.
pub proof fn lemma_senders<T>(entries: Seq<Arrival<T>>, epoch: u64, transmitters: usize)
    requires
        entries_valid(entries, epoch, transmitters),
    ensures
        entries.len() <= transmitters,
        entries.len() == transmitters <==> complete(entries, transmitters),
{
    let senders = entries.map_values(|a: Arrival<T>| a.sender_id as int);
    let range = set_int_range(0, transmitters as int);
    assert(senders.no_duplicates()) by {
        assert forall|i: int, j: int|
            0 <= i < senders.len() && 0 <= j < senders.len() && i != j implies senders[i]
            != senders[j] by {
            if i < j {
                assert(entries[i].sender_id != entries[j].sender_id);
            } else {
                assert(entries[j].sender_id != entries[i].sender_id);
            }
        }
    }
    senders.unique_seq_to_set();
    lemma_int_range(0, transmitters as int);
    assert(senders.to_set().subset_of(range)) by {
        assert forall|s: int| senders.to_set().contains(s) implies range.contains(s) by {
            let k = choose|k: int| 0 <= k < senders.len() && senders[k] == s;
            assert(entries[k].sender_id < transmitters);
        }
    }
    lemma_len_subset(senders.to_set(), range);
    if entries.len() == transmitters {
        lemma_subset_equality(senders.to_set(), range);
        assert forall|sender: usize| sender < transmitters implies has_sender(entries, sender) by {
            assert(range.contains(sender as int));
            assert(senders.contains(sender as int));
            let k = choose|k: int| 0 <= k < senders.len() && senders[k] == sender as int;
            assert(entries[k].sender_id == sender);
        }
    }
    if complete(entries, transmitters) {
        assert(range.subset_of(senders.to_set())) by {
            assert forall|s: int| range.contains(s) implies senders.to_set().contains(s) by {
                assert(has_sender(entries, s as usize));
                let k = choose|k: int|
                    0 <= k < entries.len() && #[trigger] entries[k].sender_id == s as usize;
                assert(senders[k] == s);
            }
        }
        lemma_len_subset(range, senders.to_set());
    }
}

/// One row of `matrix` for each of `transmitters`, and in each of these
/// rows one entry for each of `receivers`.
pub open spec fn matrix_covers<D>(
    matrix: Seq<Vec<D>>,
    transmitters: usize,
    receivers: usize,
) -> bool {
    &&& matrix.len() >= transmitters
    &&& forall|s: int| 0 <= s < transmitters ==> (#[trigger] matrix[s])@.len() >= receivers
}

/// Tells whether a distance matrix has an entry for every pair of a
/// transmitter and a receiver, which `ChannelProcessor::new` asks for.
pub fn covers<D>(d_matrix: &Vec<Vec<D>>, transmitters: usize, receivers: usize) -> (ok: bool)
    ensures
        ok == matrix_covers(d_matrix@, transmitters, receivers),
{
    if d_matrix.len() < transmitters {
        return false;
    }
    let mut s: usize = 0;
    while s < transmitters
        invariant
            s <= transmitters <= d_matrix@.len(),
            forall|j: int| 0 <= j < s ==> (#[trigger] d_matrix@[j])@.len() >= receivers,
        decreases transmitters - s,
    {
        if d_matrix[s].len() < receivers {
            return false;
        }
        s += 1;
    }
    true
}

/// The channel combiner for a fixed set of transmitters and receivers. `T`
/// is the type of the samples, `D` the type of the distances between
/// nodes.
pub struct ChannelProcessor<T, D> {
    transmitters: usize,
    receivers: usize,
    d_matrix: Vec<Vec<D>>,
    buffer: Vec<Pending<T>>,
}

impl<T, D> View for ChannelProcessor<T, D> {
    type V = Map<u64, Seq<Arrival<T>>>;

    /// The entries held, by epoch.
    closed spec fn view(&self) -> Map<u64, Seq<Arrival<T>>> {
        held_of(self.buffer@)
    }
}

impl<T, D> ChannelProcessor<T, D> {
    /// The number of transmitters that the barrier waits for.
    pub closed spec fn transmitters(&self) -> usize {
        self.transmitters
    }

    /// The number of receivers that each combined epoch goes out to.
    pub closed spec fn receivers(&self) -> usize {
        self.receivers
    }

    /// The distance from `sender` to `receiver`.
    pub closed spec fn distance(&self, sender: usize, receiver: usize) -> D {
        self.d_matrix@[sender as int]@[receiver as int]
    }

    /// The buffer is ordered by epoch, every entry set is valid, and the
    /// distance matrix has an entry for every pair of nodes.
    pub closed spec fn inv(&self) -> bool {
        &&& well_formed(self.buffer@, self.transmitters)
        &&& matrix_covers(self.d_matrix@, self.transmitters, self.receivers)
    }

    /// What the invariant says of the entries held: the set of each epoch
    /// is valid.
    pub proof fn lemma_held_valid(&self, epoch: u64)
        requires
            self.inv(),
            self@.dom().contains(epoch),
        ensures
            entries_valid(self@[epoch], epoch, self.transmitters()),
    {
        let i = place_of(self.buffer@, epoch);
        lemma_place(self.buffer@, i);
    }

    /// A combiner for the given numbers of transmitters and receivers,
    /// which holds nothing yet. `d_matrix[s][r]` is the distance from
    /// transmitter `s` to receiver `r`.
    pub fn new(transmitters: usize, receivers: usize, d_matrix: Vec<Vec<D>>) -> (processor: Self)
        requires
            matrix_covers(d_matrix@, transmitters, receivers),
        ensures
            processor.inv(),
            processor.transmitters() == transmitters,
            processor.receivers() == receivers,
            processor@ == Map::<u64, Seq<Arrival<T>>>::empty(),
            forall|s: usize, r: usize|
                s < transmitters && r < receivers ==> #[trigger] processor.distance(s, r)
                    == d_matrix@[s as int]@[r as int],
    {
        let processor = ChannelProcessor {
            transmitters,
            receivers,
            d_matrix,
            buffer: Vec::new(),
        };
        processor
    }

    /// The number of transmitters that the barrier waits for.
    pub fn transmitter_count(&self) -> (count: usize)
        ensures
            count == self.transmitters(),
    {
        self.transmitters
    }

    /// The number of receivers that each combined epoch goes out to.
    pub fn receiver_count(&self) -> (count: usize)
        ensures
            count == self.receivers(),
    {
        self.receivers
    }

    /// Takes in a frame that arrived from transmitter `sender_id`.
    ///
    /// The frame joins the entries of its epoch, behind those that arrived
    /// before. It is refused, and the barrier left as it was, where the
    /// sender is unknown or has already delivered for that epoch.
    pub fn insert(&mut self, sender_id: usize, frame: IqFrame<T>) -> (result: Result<
        (),
        InsertError,
    >)
        requires
            old(self).inv(),
        ensures
            final(self).inv(),
            final(self).transmitters() == old(self).transmitters(),
            final(self).receivers() == old(self).receivers(),
            forall|s: usize, r: usize| final(self).distance(s, r) == old(self).distance(s, r),
            result == insert_outcome(old(self)@, old(self).transmitters(), sender_id, frame.epoch),
            final(self)@ == after_insert(old(self)@, old(self).transmitters(), sender_id, frame),
    {
        if sender_id >= self.transmitters {
            return Err(InsertError::UnknownSender);
        }
        let epoch = frame.epoch;
        let ghost before = self.buffer@;
        let mut i: usize = 0;
        while i < self.buffer.len() && self.buffer[i].epoch < epoch
            invariant
                i <= self.buffer@.len(),
                self.buffer@ == before,
                forall|j: int| 0 <= j < i ==> (#[trigger] before[j]).epoch < epoch,
            decreases self.buffer@.len() - i,
        {
            i += 1;
        }
        if i < self.buffer.len() && self.buffer[i].epoch == epoch {
            proof {
                lemma_place(before, i as int);
            }
            let mut k: usize = 0;
            while k < self.buffer[i].frames.len()
                invariant
                    i < self.buffer@.len(),
                    self.buffer@ == before,
                    before == old(self).buffer@,
                    self.transmitters == old(self).transmitters,
                    self.receivers == old(self).receivers,
                    self.d_matrix == old(self).d_matrix,
                    sender_id < self.transmitters,
                    old(self).inv(),
                    epoch == frame.epoch,
                    entries_at(old(self)@, epoch) == before[i as int].frames@,
                    k <= before[i as int].frames@.len(),
                    forall|l: int|
                        0 <= l < k ==> (#[trigger] before[i as int].frames@[l]).sender_id
                            != sender_id,
                decreases before[i as int].frames@.len() - k,
            {
                if self.buffer[i].frames[k].sender_id == sender_id {
                    return Err(InsertError::Duplicate);
                }
                k += 1;
            }
            let mut pending = self.buffer.remove(i);
            pending.frames.push(Arrival { frame, sender_id });
            self.buffer.insert(i, pending);
            proof {
                let arrival = Arrival { frame, sender_id };
                lemma_joined(before, self.buffer@, i as int, arrival, self.transmitters);
            }
            Ok(())
        } else {
            let mut frames: Vec<Arrival<T>> = Vec::new();
            frames.push(Arrival { frame, sender_id });
            self.buffer.insert(i, Pending { epoch, frames });
            proof {
                let arrival = Arrival { frame, sender_id };
                lemma_opened(before, self.buffer@, i as int, arrival, self.transmitters);
            }
            Ok(())
        }
    }
}

impl<T, D> ChannelProcessor<T, D> {
    /// The oldest epoch held has an entry from every transmitter.
    pub open spec fn ready(&self) -> bool {
        is_ready(self@, self.transmitters())
    }

    /// Gives the oldest epoch free once it is complete.
    ///
    /// Where the oldest epoch held has an entry from every transmitter, its
    /// entries leave the barrier and come back with the epoch, in the order
    /// of their arrival. Otherwise nothing leaves: a younger epoch is never
    /// given free before an older one, however complete it is.
    pub fn release(&mut self) -> (released: Option<(u64, Vec<Arrival<T>>)>)
        requires
            old(self).inv(),
        ensures
            final(self).inv(),
            final(self).transmitters() == old(self).transmitters(),
            final(self).receivers() == old(self).receivers(),
            forall|s: usize, r: usize| final(self).distance(s, r) == old(self).distance(s, r),
            released is Some <==> old(self).ready(),
            final(self)@ == after_release(old(self)@, old(self).transmitters()),
            released matches Some((epoch, entries)) ==> {
                &&& released_by(old(self)@, old(self).transmitters()) == Some(epoch)
                &&& is_oldest(old(self)@, epoch)
                &&& entries@ == old(self)@[epoch]
                &&& entries_valid(entries@, epoch, old(self).transmitters())
                &&& entries@.len() == old(self).transmitters()
                &&& complete(entries@, old(self).transmitters())
            },
    {
        let ghost before = self.buffer@;
        if self.buffer.len() == 0 {
            proof {
                assert forall|epoch: u64| !self@.dom().contains(epoch) by {}
            }
            return None;
        }
        proof {
            lemma_front_is_oldest(before);
            lemma_senders(before[0].frames@, before[0].epoch, self.transmitters);
            assert(is_oldest(self@, before[0].epoch));
        }
        if self.buffer[0].frames.len() < self.transmitters {
            return None;
        }
        let pending = self.buffer.remove(0);
        proof {
            lemma_front_taken(before, self.buffer@, self.transmitters);
        }
        Some((pending.epoch, pending.frames))
    }
}

} // verus!
