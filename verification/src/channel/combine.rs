//! The superposition of the frames of one epoch.

use vstd::prelude::*;

use crate::channel::{Arrival, ChannelProcessor};
use crate::shmem::{IqFrame, FRAME_SAMPLES};

verus! {

/// `result` is what superposing `entries` gives at sample `index`: the
/// accumulator starts at `zero`, and `mix` adds the entries to it one
/// after the other, in their order, each with its coefficient.
pub open spec fn superposed<T, C, F: Fn(T, T, C) -> T>(
    mix: F,
    zero: T,
    entries: Seq<Arrival<T>>,
    coefficients: Seq<C>,
    index: int,
    result: T,
) -> bool
    recommends
        coefficients.len() == entries.len(),
    decreases entries.len(),
{
    if entries.len() == 0 {
        result == zero
    } else {
        exists|prev: T|
            superposed(mix, zero, entries.drop_last(), coefficients.drop_last(), index, prev)
                && #[trigger] mix.ensures(
                (prev, entries.last().frame.samples@[index], coefficients.last()),
                result,
            )
    }
}

/// A channel that adds nothing passes a lone frame through: where one
/// transmitter is heard and `mix` hands back the sample that it adds to a
/// silent accumulator, the superposition is the sample of that
/// transmitter.
pub proof fn lemma_lone_entry_passes<T, C, F: Fn(T, T, C) -> T>(
    mix: F,
    zero: T,
    entry: Arrival<T>,
    coefficient: C,
    index: int,
    result: T,
)
    requires
        superposed(mix, zero, seq![entry], seq![coefficient], index, result),
        forall|sample: T, out: T| #[trigger]
            mix.ensures((zero, sample, coefficient), out) ==> out == sample,
    ensures
        result == entry.frame.samples@[index],
{
    let entries = seq![entry];
    let coefficients = seq![coefficient];
    let prev = choose|prev: T|
        superposed(mix, zero, entries.drop_last(), coefficients.drop_last(), index, prev)
            && #[trigger] mix.ensures(
            (prev, entries.last().frame.samples@[index], coefficients.last()),
            result,
        );
    assert(prev == zero);
}

impl<T: Copy, D: Copy> ChannelProcessor<T, D> {
    /// `coefficients` are what `coefficient` makes of the distances from
    /// the transmitters of `entries` to `receiver`, one for each entry.
    pub open spec fn coupled<C, K: Fn(D) -> C>(
        &self,
        coefficient: K,
        entries: Seq<Arrival<T>>,
        receiver: usize,
        coefficients: Seq<C>,
    ) -> bool {
        &&& coefficients.len() == entries.len()
        &&& forall|k: int|
            0 <= k < entries.len() ==> coefficient.ensures(
                (self.distance(entries[k].sender_id, receiver),),
                #[trigger] coefficients[k],
            )
    }

    /// `samples` are the frame that `receiver` gets from `entries`: there
    /// is one coefficient for each entry, made of the distance from its
    /// transmitter to the receiver, and every sample of the frame is the
    /// superposition of the entries with these coefficients.
    pub open spec fn combined<C, K: Fn(D) -> C, F: Fn(T, T, C) -> T>(
        &self,
        coefficient: K,
        mix: F,
        zero: T,
        entries: Seq<Arrival<T>>,
        receiver: usize,
        samples: Seq<T>,
    ) -> bool {
        exists|coefficients: Seq<C>|
            #![trigger self.coupled(coefficient, entries, receiver, coefficients)]
            {
                &&& self.coupled(coefficient, entries, receiver, coefficients)
                &&& forall|i: int|
                    0 <= i < FRAME_SAMPLES ==> superposed(
                        mix,
                        zero,
                        entries,
                        coefficients,
                        i,
                        #[trigger] samples[i],
                    )
            }
    }

    /// A channel that adds nothing hands a lone frame on as it is: where
    /// one transmitter is heard, and `mix` hands back the sample that it
    /// adds to a silent accumulator whatever the coefficient, the frame
    /// that a receiver gets holds the samples of that transmitter.
    pub proof fn lemma_lone_frame_passes<C, K: Fn(D) -> C, F: Fn(T, T, C) -> T>(
        &self,
        coefficient: K,
        mix: F,
        zero: T,
        entry: Arrival<T>,
        receiver: usize,
        samples: Seq<T>,
    )
        requires
            self.combined(coefficient, mix, zero, seq![entry], receiver, samples),
            samples.len() == FRAME_SAMPLES,
            forall|sample: T, c: C, out: T| #[trigger]
                mix.ensures((zero, sample, c), out) ==> out == sample,
        ensures
            samples == entry.frame.samples@,
    {
        let coefficients = choose|coefficients: Seq<C>|
            {
                &&& #[trigger] self.coupled(coefficient, seq![entry], receiver, coefficients)
                &&& forall|i: int|
                    0 <= i < FRAME_SAMPLES ==> superposed(
                        mix,
                        zero,
                        seq![entry],
                        coefficients,
                        i,
                        #[trigger] samples[i],
                    )
            };
        assert(coefficients == seq![coefficients[0]]);
        assert forall|i: int| 0 <= i < FRAME_SAMPLES implies samples[i]
            == entry.frame.samples@[i] by {
            lemma_lone_entry_passes(mix, zero, entry, coefficients[0], i, samples[i]);
        }
    }

    /// Combines the entries of one epoch into one frame for each receiver.
    ///
    /// The frame for a receiver starts out as `zero` in every sample. Then
    /// the entries are added to it in their order. For each entry
    /// `coefficient` makes the propagation coefficient of the distance
    /// from its transmitter to the receiver, once, and `mix(acc, sample,
    /// c)` gives the accumulator after a sample has been added with that
    /// coefficient. Each frame carries the epoch of the entries.
    pub fn combine<C: Copy, K: Fn(D) -> C, F: Fn(T, T, C) -> T>(
        &self,
        epoch: u64,
        entries: &Vec<Arrival<T>>,
        zero: T,
        coefficient: &K,
        mix: &F,
    ) -> (frames: Vec<IqFrame<T>>)
        requires
            self.inv(),
            forall|k: int|
                0 <= k < entries@.len() ==> (#[trigger] entries@[k]).sender_id
                    < self.transmitters(),
            forall|distance: D| #[trigger] coefficient.requires((distance,)),
            forall|acc: T, sample: T, c: C| #[trigger] mix.requires((acc, sample, c)),
        ensures
            frames@.len() == self.receivers(),
            forall|r: int| 0 <= r < frames@.len() ==> (#[trigger] frames@[r]).epoch == epoch,
            forall|r: int|
                0 <= r < frames@.len() ==> self.combined(
                    *coefficient,
                    *mix,
                    zero,
                    entries@,
                    r as usize,
                    (#[trigger] frames@[r]).samples@,
                ),
    {
        let mut frames: Vec<IqFrame<T>> = Vec::new();
        let mut rx_id: usize = 0;
        while rx_id < self.receivers
            invariant
                self.inv(),
                rx_id <= self.receivers,
                frames@.len() == rx_id,
                forall|k: int|
                    0 <= k < entries@.len() ==> (#[trigger] entries@[k]).sender_id
                        < self.transmitters(),
                forall|distance: D| #[trigger] coefficient.requires((distance,)),
                forall|acc: T, sample: T, c: C| #[trigger] mix.requires((acc, sample, c)),
                forall|r: int| 0 <= r < frames@.len() ==> (#[trigger] frames@[r]).epoch == epoch,
                forall|r: int|
                    0 <= r < frames@.len() ==> self.combined(
                        *coefficient,
                        *mix,
                        zero,
                        entries@,
                        r as usize,
                        (#[trigger] frames@[r]).samples@,
                    ),
            decreases self.receivers - rx_id,
        {
            let mut txbuf: [T; 1024] = [zero;1024];
            let ghost mut coefficients: Seq<C> = Seq::empty();
            let mut k: usize = 0;
            while k < entries.len()
                invariant
                    self.inv(),
                    k <= entries@.len(),
                    rx_id < self.receivers(),
                    forall|k: int|
                        0 <= k < entries@.len() ==> (#[trigger] entries@[k]).sender_id
                            < self.transmitters(),
                    forall|distance: D| #[trigger] coefficient.requires((distance,)),
                    forall|acc: T, sample: T, c: C| #[trigger] mix.requires((acc, sample, c)),
                    self.coupled(*coefficient, entries@.take(k as int), rx_id, coefficients),
                    forall|i: int|
                        0 <= i < FRAME_SAMPLES ==> superposed(
                            *mix,
                            zero,
                            entries@.take(k as int),
                            coefficients,
                            i,
                            #[trigger] txbuf@[i],
                        ),
                decreases entries@.len() - k,
            {
                let sender = entries[k].sender_id;
                let c = coefficient(self.d_matrix[sender][rx_id]);
                let ghost before = entries@.take(k as int);
                let ghost after = entries@.take(k + 1);
                let ghost earlier = coefficients;
                proof {
                    coefficients = coefficients.push(c);
                    assert forall|j: int| 0 <= j < after.len() implies coefficient.ensures(
                        (self.distance(after[j].sender_id, rx_id),),
                        #[trigger] coefficients[j],
                    ) by {}
                }
                let mut i: usize = 0;
                while i < FRAME_SAMPLES
                    invariant
                        i <= FRAME_SAMPLES,
                        k < entries@.len(),
                        before == entries@.take(k as int),
                        after == entries@.take(k + 1),
                        after.len() > 0,
                        after.drop_last() == before,
                        after.last() == entries@[k as int],
                        coefficients.len() > 0,
                        coefficients.drop_last() == earlier,
                        coefficients.last() == c,
                        forall|acc: T, sample: T, c: C| #[trigger] mix.requires((acc, sample, c)),
                        forall|j: int|
                            0 <= j < i ==> superposed(
                                *mix,
                                zero,
                                after,
                                coefficients,
                                j,
                                #[trigger] txbuf@[j],
                            ),
                        forall|j: int|
                            i <= j < FRAME_SAMPLES ==> superposed(
                                *mix,
                                zero,
                                before,
                                earlier,
                                j,
                                #[trigger] txbuf@[j],
                            ),
                    decreases FRAME_SAMPLES - i,
                {
                    let ghost prev = txbuf@[i as int];
                    let sum = mix(txbuf[i], entries[k].frame.samples[i], c);
                    txbuf[i] = sum;
                    proof {
                        assert(superposed(
                            *mix,
                            zero,
                            after.drop_last(),
                            coefficients.drop_last(),
                            i as int,
                            prev,
                        ));
                        assert((*mix).ensures(
                            (prev, after.last().frame.samples@[i as int], coefficients.last()),
                            sum,
                        ));
                    }
                    i += 1;
                }
                k += 1;
            }
            proof {
                assert(entries@.take(entries@.len() as int) == entries@);
            }
            frames.push(IqFrame { epoch, samples: txbuf });
            rx_id += 1;
        }
        frames
    }
}

} // verus!
