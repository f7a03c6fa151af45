//! Sample streams as frames: the unit that nodes exchange with the channel,
//! the packetizer that cuts a stream into frames, and the depacketizer
//! that joins frames into a stream again.

use vstd::prelude::*;

pub mod publisher;
pub mod subscriber;

pub use crate::shmem::publisher::ChannelPublisher;
pub use crate::shmem::subscriber::ChannelSubscriber;

verus! {

/// Samples in one frame.
pub const FRAME_SAMPLES: usize = 1024;

/// A block of samples with the epoch it belongs to. `T` is the sample type;
/// the library moves samples and never computes on them.
#[derive(Debug)]
pub struct IqFrame<T> {
    /// Position of this block in its stream, counted from zero.
    pub epoch: u64,
    /// The samples of the block.
    pub samples: [T; 1024],
}

impl<T: Copy> Clone for IqFrame<T> {
    fn clone(&self) -> (copy: Self)
        ensures
            copy == *self,
    {
        IqFrame { epoch: self.epoch, samples: self.samples }
    }
}

/// A frame as contracts see it.
pub struct IqFrameView<T> {
    /// Position of the block in its stream.
    pub epoch: u64,
    /// The samples of the block, `FRAME_SAMPLES` of them.
    pub samples: Seq<T>,
}

impl<T> View for IqFrame<T> {
    type V = IqFrameView<T>;

    open spec fn view(&self) -> IqFrameView<T> {
        IqFrameView { epoch: self.epoch, samples: self.samples@ }
    }
}

/// `count` samples of silence.
pub open spec fn silence_run<T>(silence: T, count: int) -> Seq<T> {
    Seq::new(
        if count >= 0 {
            count as nat
        } else {
            0
        },
        |i: int| silence,
    )
}

/// `window` filled up with silence to the length of a frame.
pub open spec fn padded<T>(window: Seq<T>, silence: T) -> Seq<T> {
    window + silence_run(silence, FRAME_SAMPLES - window.len())
}

/// Frames that `count` samples fill, the last one possibly in part.
pub open spec fn frame_count(count: nat) -> nat {
    ((count + FRAME_SAMPLES - 1) / (FRAME_SAMPLES as int)) as nat
}

/// The samples of `samples` that fall into frame `k`.
pub open spec fn chunk<T>(samples: Seq<T>, k: int) -> Seq<T> {
    samples.subrange(
        FRAME_SAMPLES * k,
        if FRAME_SAMPLES * (k + 1) <= samples.len() {
            FRAME_SAMPLES * (k + 1)
        } else {
            samples.len() as int
        },
    )
}

/// The frames that a stream of samples makes: frame `k` holds the samples
/// of chunk `k`, filled up with silence where the stream ends early, and
/// carries the epoch `first_epoch + k`.
pub open spec fn frames_of<T>(samples: Seq<T>, first_epoch: u64, silence: T) -> Seq<
    IqFrameView<T>,
> {
    Seq::new(
        frame_count(samples.len()),
        |k: int|
            IqFrameView {
                epoch: (first_epoch + k) as u64,
                samples: padded(chunk(samples, k), silence),
            },
    )
}

/// The views of a sequence of frames.
pub open spec fn frame_views<T>(frames: Seq<IqFrame<T>>) -> Seq<IqFrameView<T>> {
    frames.map_values(|f: IqFrame<T>| f@)
}

/// The samples of a sequence of frames, in order.
pub open spec fn samples_of<T>(frames: Seq<IqFrameView<T>>) -> Seq<T>
    decreases frames.len(),
{
    if frames.len() == 0 {
        Seq::empty()
    } else {
        frames[0].samples + samples_of(frames.skip(1))
    }
}

/// A frame joined to the end of a sequence adds its samples at the end.
pub proof fn lemma_samples_of_push<T>(frames: Seq<IqFrameView<T>>, frame: IqFrameView<T>)
    ensures
        samples_of(frames.push(frame)) == samples_of(frames) + frame.samples,
    decreases frames.len(),
{
    if frames.len() == 0 {
        assert(frames.push(frame).skip(1) == Seq::<IqFrameView<T>>::empty());
        assert(samples_of(Seq::<IqFrameView<T>>::empty()) == Seq::<T>::empty());
    } else {
        lemma_samples_of_push(frames.skip(1), frame);
        assert(frames.push(frame).skip(1) == frames.skip(1).push(frame));
    }
}

/// Frames hold `FRAME_SAMPLES` samples each.
pub proof fn lemma_samples_of_len<T>(frames: Seq<IqFrame<T>>)
    ensures
        samples_of(frame_views(frames)).len() == FRAME_SAMPLES * frames.len(),
    decreases frames.len(),
{
    if frames.len() > 0 {
        lemma_samples_of_len(frames.skip(1));
        assert(frame_views(frames).skip(1) == frame_views(frames.skip(1)));
    }
}

/// The frames of a stream hold the stream: their samples, in order, are
/// the samples of the stream, followed by the silence that fills the last
/// frame.
pub proof fn lemma_frames_hold_stream<T>(samples: Seq<T>, first_epoch: u64, silence: T)
    ensures
        samples_of(frames_of(samples, first_epoch, silence)) == samples + silence_run(
            silence,
            FRAME_SAMPLES * frame_count(samples.len()) - samples.len(),
        ),
    decreases samples.len(),
{
    let frames = frames_of(samples, first_epoch, silence);
    let count = frame_count(samples.len()) as int;
    if count > 0 {
        // all frames but the last hold the stream up to the last frame
        let cut = FRAME_SAMPLES * (count - 1);
        let front = samples.take(cut);
        let last = chunk(samples, count - 1);
        lemma_frames_hold_stream(front, first_epoch, silence);
        assert(frames_of(front, first_epoch, silence) == frames.drop_last()) by {
            assert forall|k: int| 0 <= k < count - 1 implies chunk(front, k) == chunk(
                samples,
                k,
            ) by {}
        }
        assert(frames == frames.drop_last().push(frames.last()));
        lemma_samples_of_push(frames.drop_last(), frames.last());
        assert(front + padded(last, silence) == samples + silence_run(
            silence,
            FRAME_SAMPLES * count - samples.len(),
        ));
    }
}

} // verus!
