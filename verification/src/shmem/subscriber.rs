//! The depacketizer.

use std::collections::VecDeque;
use vstd::prelude::*;

use crate::shmem::{
    frame_count, frame_views, frames_of, lemma_frames_hold_stream, lemma_samples_of_len,
    lemma_samples_of_push, samples_of, silence_run, IqFrame, IqFrameView, FRAME_SAMPLES,
};

verus! {

/// How many samples are missing when `len` are asked for.
pub open spec fn shortfall<T>(pending: Seq<T>, len: int) -> nat {
    if len > pending.len() {
        (len - pending.len()) as nat
    } else {
        0
    }
}

/// How many of the samples that wait are handed out when `len` are asked
/// for.
pub open spec fn available<T>(pending: Seq<T>, len: int) -> int {
    if len <= pending.len() {
        len
    } else {
        pending.len() as int
    }
}

/// The `len` samples that a depacketizer hands out: the samples that wait,
/// then silence.
pub open spec fn served<T>(pending: Seq<T>, silence: T, len: int) -> Seq<T> {
    pending.take(available(pending, len)) + silence_run(silence, len - available(pending, len))
}

/// The state of a depacketizer as contracts see it.
pub struct SubscriberState<T> {
    /// The samples that wait to be handed out, oldest first.
    pub pending: Seq<T>,
    /// The sample that stands for silence.
    pub silence: T,
}

/// The depacketizer: joins queued frames into a stream of samples and
/// hands out silence when it has none.
pub struct ChannelSubscriber<T> {
    queue: VecDeque<IqFrame<T>>,
    current: Option<IqFrame<T>>,
    pos: usize,
    silence: T,
}

impl<T: Copy> View for ChannelSubscriber<T> {
    type V = SubscriberState<T>;

    closed spec fn view(&self) -> SubscriberState<T> {
        SubscriberState {
            pending: self.head() + samples_of(frame_views(self.queue@)),
            silence: self.silence,
        }
    }
}

impl<T: Copy> ChannelSubscriber<T> {
    /// What is left of the frame that is being read.
    closed spec fn head(&self) -> Seq<T> {
        match self.current {
            Some(frame) => frame.samples@.skip(self.pos as int),
            None => Seq::empty(),
        }
    }

    /// The frame that is being read has samples left.
    pub closed spec fn inv(&self) -> bool {
        match self.current {
            Some(_) => self.pos < FRAME_SAMPLES,
            None => self.pos == 0,
        }
    }

    /// A depacketizer with nothing queued. `silence` is the sample that
    /// it hands out when it has no frame.
    pub fn new(silence: T) -> (subscriber: Self)
        ensures
            subscriber.inv(),
            subscriber@ == (SubscriberState { pending: Seq::empty(), silence }),
    {
        let subscriber = ChannelSubscriber {
            queue: VecDeque::new(),
            current: None,
            pos: 0,
            silence,
        };
        subscriber
    }

    /// Queues a frame behind those that wait.
    pub fn push(&mut self, frame: IqFrame<T>)
        requires
            old(self).inv(),
        ensures
            final(self).inv(),
            final(self)@ == (SubscriberState {
                pending: old(self)@.pending + frame@.samples,
                ..old(self)@
            }),
    {
        proof {
            lemma_samples_of_push(frame_views(self.queue@), frame@);
            assert(frame_views(self.queue@.push(frame)) == frame_views(self.queue@).push(frame@));
        }
        let ghost head = self.head();
        let ghost rest = samples_of(frame_views(self.queue@));
        self.queue.push_back(frame);
        proof {
            assert(head + (rest + frame@.samples) == (head + rest) + frame@.samples);
        }
    }

    /// How many more frames must be queued before `len` samples can be
    /// handed out without silence among them.
    pub fn frames_needed(&self, len: usize) -> (count: usize)
        requires
            self.inv(),
        ensures
            count == frame_count(shortfall(self@.pending, len as int)),
    {
        proof {
            self.lemma_pending_len();
        }
        let have = match &self.current {
            Some(_) => FRAME_SAMPLES - self.pos,
            None => 0,
        };
        if len <= have {
            return 0;
        }
        let want = len - have;
        let frames = want / FRAME_SAMPLES + if want % FRAME_SAMPLES != 0 {
            1
        } else {
            0
        };
        let queued = self.queue.len();
        if frames <= queued {
            0
        } else {
            frames - queued
        }
    }

    /// Every queued frame holds `FRAME_SAMPLES` samples.
    proof fn lemma_pending_len(&self)
        requires
            self.inv(),
        ensures
            self@.pending.len() == self.head().len() + FRAME_SAMPLES * self.queue@.len(),
    {
        lemma_samples_of_len(self.queue@);
    }

    /// Hands out the next `len` samples: those that wait, oldest first,
    /// and silence for the rest where fewer than `len` wait.
    pub fn work(&mut self, len: usize) -> (out: Vec<T>)
        requires
            old(self).inv(),
        ensures
            final(self).inv(),
            out@ == served(old(self)@.pending, old(self)@.silence, len as int),
            final(self)@ == (SubscriberState {
                pending: old(self)@.pending.skip(available(old(self)@.pending, len as int)),
                ..old(self)@
            }),
    {
        let ghost pending = self@.pending;
        let ghost silence = self.silence;
        let mut out: Vec<T> = Vec::new();
        while out.len() < len
            invariant
                self.inv(),
                self.silence == silence,
                out@.len() <= len,
                out@.len() < len ==> out@.len() <= pending.len() && out@ == pending.take(
                    out@.len() as int,
                ) && self@.pending == pending.skip(out@.len() as int),
                out@.len() == len ==> out@ == served(pending, silence, len as int) && self@.pending
                    == pending.skip(available(pending, len as int)),
            decreases len - out@.len(),
        {
            let ghost done = out@.len() as int;
            if self.current.is_none() {
                let ghost queued = self.queue@;
                match self.queue.pop_front() {
                    Some(frame) => {
                        proof {
                            assert(frame_views(queued).skip(1) == frame_views(self.queue@));
                        }
                        self.current = Some(frame);
                        self.pos = 0;
                    },
                    None => {},
                }
            }
            let copied: usize = match &self.current {
                Some(frame) => {
                    let avail = FRAME_SAMPLES - self.pos;
                    let want = len - out.len();
                    let n = if avail <= want {
                        avail
                    } else {
                        want
                    };
                    let mut i: usize = 0;
                    while i < n
                        invariant
                            i <= n,
                            self.pos + n <= FRAME_SAMPLES,
                            out@.len() == done + i,
                            done + n <= len,
                            self.current == Some(*frame),
                            out@ == pending.take(done) + frame.samples@.subrange(
                                self.pos as int,
                                self.pos + i,
                            ),
                        decreases n - i,
                    {
                        out.push(frame.samples[self.pos + i]);
                        i += 1;
                    }
                    proof {
                        let rest = samples_of(frame_views(self.queue@));
                        let head = frame.samples@.skip(self.pos as int);
                        assert(frame.samples@.subrange(self.pos as int, self.pos + n) == head.take(
                            n as int,
                        ));
                        assert(pending.take(done) + pending.skip(done).take(n as int)
                            == pending.take(done + n));
                        assert(pending.skip(done).skip(n as int) == frame.samples@.skip(
                            self.pos + n,
                        ) + rest);
                    }
                    n
                },
                None => {
                    while out.len() < len
                        invariant
                            done == pending.len(),
                            done <= out@.len() <= len,
                            self.silence == silence,
                            out@ == pending + silence_run(silence, out@.len() - done),
                        decreases len - out@.len(),
                    {
                        let ghost padded = out@.len() - done;
                        out.push(self.silence);
                        proof {
                            assert(silence_run(silence, padded).push(silence) == silence_run(
                                silence,
                                padded + 1,
                            ));
                        }
                    }
                    0
                },
            };
            if self.current.is_some() {
                self.pos += copied;
                if self.pos >= FRAME_SAMPLES {
                    self.current = None;
                    self.pos = 0;
                }
            }
        }
        out
    }
}

/// A stream comes out of the depacketizer as it went into the packetizer:
/// where the frames of a stream are queued, the depacketizer hands out the
/// samples of the stream in their order, and silence behind them.
pub proof fn lemma_round_trip<T>(samples: Seq<T>, first_epoch: u64, silence: T, len: int)
    requires
        0 <= len,
    ensures
        served(samples_of(frames_of(samples, first_epoch, silence)), silence, len) == served(
            samples,
            silence,
            len,
        ),
        len <= samples.len() ==> served(samples, silence, len) == samples.take(len),
{
    lemma_frames_hold_stream(samples, first_epoch, silence);
}

} // verus!
