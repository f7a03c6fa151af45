//! The packetizer.

use vstd::prelude::*;

use crate::shmem::{
    chunk, frame_count, frame_views, frames_of, padded, IqFrame, IqFrameView, FRAME_SAMPLES,
};

verus! {

/// The state of a packetizer as contracts see it.
pub struct PublisherState<T> {
    /// The samples collected for the next frame, fewer than a frame holds.
    pub window: Seq<T>,
    /// The epoch of the next frame.
    pub epoch: u64,
    /// The sample that stands for silence.
    pub silence: T,
}

/// What one work cycle of a packetizer does.
pub struct PublisherStep<T> {
    /// The state after the cycle.
    pub state: PublisherState<T>,
    /// How many samples of the input the cycle took.
    pub consumed: nat,
    /// The frame that the cycle emitted, if it emitted one.
    pub frame: Option<IqFrameView<T>>,
}

impl<T> PublisherState<T> {
    /// The state once a frame has left: an empty window, the next epoch.
    pub open spec fn advanced(self) -> PublisherState<T> {
        PublisherState {
            window: Seq::empty(),
            epoch: (self.epoch + 1) as u64,
            silence: self.silence,
        }
    }

    /// One work cycle on `input`.
    ///
    /// With input at hand the cycle takes as much of it as the window has
    /// room for, and emits the window when that fills it. With no input at
    /// hand, which is how the source says that it is exhausted, a window
    /// that holds samples is filled up with silence and emitted.
    pub open spec fn step(self, input: Seq<T>) -> PublisherStep<T> {
        let room = FRAME_SAMPLES - self.window.len();
        let taken = if input.len() <= room {
            input.len() as int
        } else {
            room
        };
        let window = self.window + input.take(taken);
        if input.len() == 0 && self.window.len() > 0 {
            PublisherStep {
                state: self.advanced(),
                consumed: 0,
                frame: Some(
                    IqFrameView { epoch: self.epoch, samples: padded(self.window, self.silence) },
                ),
            }
        } else if window.len() == FRAME_SAMPLES {
            PublisherStep {
                state: self.advanced(),
                consumed: taken as nat,
                frame: Some(IqFrameView { epoch: self.epoch, samples: window }),
            }
        } else {
            PublisherStep {
                state: PublisherState { window, ..self },
                consumed: taken as nat,
                frame: None,
            }
        }
    }
}

/// What one work cycle of a packetizer hands back.
#[derive(Debug)]
pub struct Publication<T> {
    /// How many samples of the input were taken.
    pub consumed: usize,
    /// The frame to send, if the cycle completed one.
    pub frame: Option<IqFrame<T>>,
    /// The source was exhausted: there was no input, and any samples in
    /// the window have left in a last, padded frame.
    pub finished: bool,
}

/// The packetizer: collects a stream of samples into frames of
/// `FRAME_SAMPLES` samples with consecutive epochs.
pub struct ChannelPublisher<T> {
    n: usize,
    epoch: u64,
    tmpbuf: [T; 1024],
    silence: T,
}

impl<T: Copy> View for ChannelPublisher<T> {
    type V = PublisherState<T>;

    closed spec fn view(&self) -> PublisherState<T> {
        PublisherState {
            window: self.tmpbuf@.take(self.n as int),
            epoch: self.epoch,
            silence: self.silence,
        }
    }
}

impl<T: Copy> ChannelPublisher<T> {
    /// The window is not full, and what lies behind it is silence.
    pub closed spec fn inv(&self) -> bool {
        &&& self.n < FRAME_SAMPLES
        &&& forall|i: int| self.n <= i < FRAME_SAMPLES ==> self.tmpbuf@[i] == self.silence
    }

    /// A packetizer at epoch zero with an empty window. `silence` is the
    /// sample that pads a last, incomplete frame.
    pub fn new(silence: T) -> (publisher: Self)
        ensures
            publisher.inv(),
            publisher@ == (PublisherState { window: Seq::empty(), epoch: 0, silence }),
    {
        let publisher = ChannelPublisher { n: 0, epoch: 0, tmpbuf: [silence;1024], silence };
        assert(publisher@.window =~= Seq::empty());
        publisher
    }

    /// The epoch of the next frame.
    pub fn epoch(&self) -> (epoch: u64)
        ensures
            epoch == self@.epoch,
    {
        self.epoch
    }

    /// One work cycle on the samples that the source has at hand.
    pub fn work(&mut self, input: &[T]) -> (out: Publication<T>)
        requires
            old(self).inv(),
            old(self)@.step(input@).frame is Some ==> old(self)@.epoch < u64::MAX,
        ensures
            final(self).inv(),
            final(self)@ == old(self)@.step(input@).state,
            out.consumed == old(self)@.step(input@).consumed,
            out.frame is Some == old(self)@.step(input@).frame is Some,
            out.frame is Some ==> out.frame->0@ == old(self)@.step(input@).frame->0,
            out.finished == (input@.len() == 0),
    {
        let available = input.len();
        let mut processed: usize = 0;
        if available > 0 {
            let space_left = FRAME_SAMPLES - self.n;
            let to_process = if available <= space_left {
                available
            } else {
                space_left
            };
            let mut i: usize = 0;
            while i < to_process
                invariant
                    i <= to_process,
                    to_process <= input@.len(),
                    self.n + to_process <= FRAME_SAMPLES,
                    self.n == old(self).n,
                    self.epoch == old(self).epoch,
                    self.silence == old(self).silence,
                    self.tmpbuf@.take(self.n as int) == old(self).tmpbuf@.take(self.n as int),
                    self.tmpbuf@.subrange(self.n as int, self.n + i) == input@.take(i as int),
                    forall|j: int|
                        self.n + i <= j < FRAME_SAMPLES ==> self.tmpbuf@[j] == self.silence,
                decreases to_process - i,
            {
                let ghost before = self.tmpbuf@;
                self.tmpbuf[self.n + i] = input[i];
                proof {
                    assert(self.tmpbuf@.subrange(self.n as int, self.n + i + 1) == before.subrange(
                        self.n as int,
                        self.n + i,
                    ).push(input@[i as int]));
                }
                i += 1;
            }
            proof {
                assert(self.tmpbuf@.take(self.n + to_process) == self.tmpbuf@.take(self.n as int)
                    + self.tmpbuf@.subrange(self.n as int, self.n + to_process));
            }
            processed = to_process;
            self.n += to_process;
        } else if self.n > 0 {
            proof {
                assert(self.tmpbuf@ == padded(old(self)@.window, self.silence));
            }
            self.n = FRAME_SAMPLES;
        }
        let frame = if self.n >= FRAME_SAMPLES {
            let frame = IqFrame { epoch: self.epoch, samples: self.tmpbuf };
            proof {
                assert(self.tmpbuf@.take(FRAME_SAMPLES as int) == self.tmpbuf@);
            }
            self.n = 0;
            self.epoch += 1;
            self.tmpbuf = [self.silence;1024];
            proof {
                assert(self@.window == Seq::<T>::empty());
            }
            Some(frame)
        } else {
            None
        };
        Publication { consumed: processed, frame, finished: available == 0 }
    }

    /// Feeds a whole stream through the packetizer and tells it then that
    /// the source is exhausted. The frames come back in the order in which
    /// they were completed.
    pub fn packetize(&mut self, stream: &[T]) -> (frames: Vec<IqFrame<T>>)
        requires
            old(self).inv(),
            old(self)@.epoch + frame_count(old(self)@.window.len() + stream@.len()) <= u64::MAX,
        ensures
            final(self).inv(),
            frame_views(frames@) == frames_of(
                old(self)@.window + stream@,
                old(self)@.epoch,
                old(self)@.silence,
            ),
            final(self)@ == (PublisherState {
                window: Seq::empty(),
                epoch: (old(self)@.epoch + frames@.len()) as u64,
                silence: old(self)@.silence,
            }),
    {
        let ghost all = self@.window + stream@;
        let ghost first = self@.epoch;
        let ghost silence = self@.silence;
        let ghost held = self@.window.len();
        let ghost target = frames_of(all, first, silence);
        let mut frames: Vec<IqFrame<T>> = Vec::new();
        let mut offset: usize = 0;
        while offset < stream.len()
            invariant
                offset <= stream@.len(),
                self.inv(),
                all == old(self)@.window + stream@,
                held == old(self)@.window.len(),
                target == frames_of(all, first, silence),
                self@.silence == silence,
                self@.epoch == first + frames@.len(),
                first + frame_count(all.len()) <= u64::MAX,
                FRAME_SAMPLES * frames@.len() + self@.window.len() == held + offset,
                self@.window == all.subrange(FRAME_SAMPLES * frames@.len(), held + offset),
                frame_views(frames@) == target.take(frames@.len() as int),
            decreases stream@.len() - offset,
        {
            let rest = vstd::slice::slice_subrange(stream, offset, stream.len());
            let ghost before = self@;
            let ghost done = frames@.len() as int;
            let out = self.work(rest);
            proof {
                let taken = out.consumed as int;
                assert(before.window + rest@.take(taken) == all.subrange(
                    FRAME_SAMPLES * done,
                    held + offset + taken,
                ));
            }
            offset += out.consumed;
            match out.frame {
                Some(frame) => {
                    proof {
                        assert(chunk(all, done) == all.subrange(
                            FRAME_SAMPLES * done,
                            held + offset,
                        ));
                        assert(self@.window == all.subrange(
                            FRAME_SAMPLES * (done + 1),
                            held + offset,
                        ));
                    }
                    frames.push(frame);
                },
                None => {},
            }
        }
        let rest = vstd::slice::slice_subrange(stream, offset, offset);
        let ghost done = frames@.len() as int;
        let out = self.work(rest);
        match out.frame {
            Some(frame) => {
                frames.push(frame);
                proof {
                    assert(target.take(done + 1) == target);
                }
            },
            None => {},
        }
        proof {
            assert(self@.window == Seq::<T>::empty());
        }
        frames
    }
}

impl<T> PublisherState<T> {
    /// The frames that a packetizer in this state emits over a run of work
    /// cycles, one cycle for each element of `inputs`.
    pub open spec fn emitted(self, inputs: Seq<Seq<T>>) -> Seq<IqFrameView<T>>
        decreases inputs.len(),
    {
        if inputs.len() == 0 {
            Seq::empty()
        } else {
            let cycle = self.step(inputs[0]);
            let first = match cycle.frame {
                Some(frame) => seq![frame],
                None => Seq::empty(),
            };
            first + cycle.state.emitted(inputs.skip(1))
        }
    }
}

/// Over any run of work cycles a packetizer numbers its frames one by one:
/// the frame at place `i` of what it emits carries the epoch of the start
/// plus `i`, and holds a full frame of samples.
pub proof fn lemma_emitted_epochs<T>(state: PublisherState<T>, inputs: Seq<Seq<T>>, i: int)
    requires
        state.window.len() < FRAME_SAMPLES,
        state.epoch + inputs.len() <= u64::MAX,
        0 <= i < state.emitted(inputs).len(),
    ensures
        state.emitted(inputs)[i].epoch == state.epoch + i,
        state.emitted(inputs)[i].samples.len() == FRAME_SAMPLES,
        state.emitted(inputs).len() <= inputs.len(),
    decreases inputs.len(),
{
    let cycle = state.step(inputs[0]);
    lemma_emitted_len(cycle.state, inputs.skip(1));
    if cycle.frame is Some {
        if i > 0 {
            lemma_emitted_epochs(cycle.state, inputs.skip(1), i - 1);
        }
    } else {
        lemma_emitted_epochs(cycle.state, inputs.skip(1), i);
    }
}

/// A run of work cycles emits at most one frame for each cycle.
pub proof fn lemma_emitted_len<T>(state: PublisherState<T>, inputs: Seq<Seq<T>>)
    ensures
        state.emitted(inputs).len() <= inputs.len(),
    decreases inputs.len(),
{
    if inputs.len() > 0 {
        lemma_emitted_len(state.step(inputs[0]).state, inputs.skip(1));
    }
}

/// Frames leave a packetizer in the order of their epochs: of two frames
/// that it emits, the one emitted first has the lower epoch.
pub proof fn lemma_epochs_increase<T>(
    state: PublisherState<T>,
    inputs: Seq<Seq<T>>,
    i: int,
    j: int,
)
    requires
        state.window.len() < FRAME_SAMPLES,
        state.epoch + inputs.len() <= u64::MAX,
        0 <= i < j < state.emitted(inputs).len(),
    ensures
        state.emitted(inputs)[i].epoch < state.emitted(inputs)[j].epoch,
{
    lemma_emitted_epochs(state, inputs, i);
    lemma_emitted_epochs(state, inputs, j);
}

} // verus!
