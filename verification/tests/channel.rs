use lora_link::channel::{covers, ChannelProcessor, InsertError};
use lora_link::shmem::{ChannelPublisher, ChannelSubscriber, IqFrame};

fn frame(epoch: u64, value: f32) -> IqFrame<(f32, f32)> {
    IqFrame { epoch, samples: [(value, -value); 1024] }
}

/// A barrier for nodes that are all at distance 1 of each other.
fn barrier(transmitters: usize, receivers: usize) -> ChannelProcessor<(f32, f32), f32> {
    ChannelProcessor::new(transmitters, receivers, vec![vec![1.0; receivers]; transmitters])
}

#[test]
fn barrier_holds_an_epoch_until_every_transmitter_has_delivered() {
    let mut processor = barrier(2, 2);
    assert_eq!(processor.transmitter_count(), 2);
    assert_eq!(processor.receiver_count(), 2);
    assert!(processor.release().is_none());
    assert_eq!(processor.insert(0, frame(0, 1.0)), Ok(()));
    assert!(processor.release().is_none());
    assert!(processor.release().is_none());
    assert_eq!(processor.insert(1, frame(0, 2.0)), Ok(()));
    let (epoch, entries) = processor.release().unwrap();
    assert_eq!(epoch, 0);
    assert_eq!(entries.len(), 2);
    assert_eq!(entries[0].sender_id, 0);
    assert_eq!(entries[0].frame.samples[0], (1.0, -1.0));
    assert_eq!(entries[1].sender_id, 1);
    assert_eq!(entries[1].frame.samples[0], (2.0, -2.0));
    assert!(processor.release().is_none());
}

#[test]
fn barrier_keeps_entries_in_the_order_of_arrival() {
    let mut processor = barrier(3, 1);
    assert_eq!(processor.insert(2, frame(4, 2.0)), Ok(()));
    assert_eq!(processor.insert(0, frame(4, 0.0)), Ok(()));
    assert!(processor.release().is_none());
    assert_eq!(processor.insert(1, frame(4, 1.0)), Ok(()));
    let (epoch, entries) = processor.release().unwrap();
    assert_eq!(epoch, 4);
    let senders: Vec<usize> = entries.iter().map(|e| e.sender_id).collect();
    assert_eq!(senders, vec![2, 0, 1]);
}

#[test]
fn barrier_gives_the_oldest_epoch_free_first() {
    let mut processor = barrier(2, 2);
    assert_eq!(processor.insert(0, frame(1, 1.0)), Ok(()));
    assert_eq!(processor.insert(1, frame(1, 1.0)), Ok(()));
    assert_eq!(processor.insert(0, frame(0, 0.0)), Ok(()));
    // epoch 1 is complete, but epoch 0 is older and lacks a transmitter
    assert!(processor.release().is_none());
    assert_eq!(processor.insert(1, frame(0, 0.0)), Ok(()));
    assert_eq!(processor.release().unwrap().0, 0);
    assert_eq!(processor.release().unwrap().0, 1);
    assert!(processor.release().is_none());
}

#[test]
fn barrier_gives_epochs_free_in_rising_order() {
    // transmitter 0 runs ahead of transmitter 1; both deliver in order
    let mut processor = barrier(2, 1);
    let mut released = Vec::new();
    let arrivals = [(0, 0), (0, 1), (1, 0), (0, 2), (0, 3), (1, 1), (1, 2), (0, 4), (1, 3), (1, 4)];
    for (sender, epoch) in arrivals {
        assert_eq!(processor.insert(sender, frame(epoch, 0.0)), Ok(()));
        while let Some((epoch, _)) = processor.release() {
            released.push(epoch);
        }
    }
    assert_eq!(released, vec![0, 1, 2, 3, 4]);
}

#[test]
fn barrier_stalls_behind_an_epoch_that_stays_incomplete() {
    let mut processor = barrier(2, 1);
    assert_eq!(processor.insert(0, frame(0, 0.0)), Ok(()));
    for epoch in 1..20 {
        assert_eq!(processor.insert(0, frame(epoch, 0.0)), Ok(()));
        assert_eq!(processor.insert(1, frame(epoch, 0.0)), Ok(()));
        assert!(processor.release().is_none());
    }
}

#[test]
fn barrier_refuses_an_unknown_sender() {
    let mut processor = barrier(2, 2);
    assert_eq!(processor.insert(2, frame(0, 0.0)), Err(InsertError::UnknownSender));
    assert_eq!(processor.insert(usize::MAX, frame(0, 0.0)), Err(InsertError::UnknownSender));
    assert!(processor.release().is_none());
}

#[test]
fn barrier_refuses_a_second_frame_of_one_transmitter_for_an_epoch() {
    let mut processor = barrier(2, 2);
    assert_eq!(processor.insert(0, frame(3, 1.0)), Ok(()));
    assert_eq!(processor.insert(0, frame(3, 9.0)), Err(InsertError::Duplicate));
    assert!(processor.release().is_none());
    assert_eq!(processor.insert(1, frame(3, 2.0)), Ok(()));
    let (_, entries) = processor.release().unwrap();
    assert_eq!(entries.len(), 2);
    assert_eq!(entries[0].frame.samples[0], (1.0, -1.0));
}

#[test]
fn barrier_without_transmitters_gives_nothing_free() {
    let mut processor = barrier(0, 1);
    assert!(processor.release().is_none());
    assert_eq!(processor.insert(0, frame(0, 0.0)), Err(InsertError::UnknownSender));
    assert!(processor.release().is_none());
}

#[test]
fn covers_asks_for_a_distance_for_every_pair() {
    let matrix = vec![vec![0.1f32, 25.0], vec![25.0, 0.1]];
    assert!(covers(&matrix, 2, 2));
    assert!(covers(&matrix, 1, 2));
    assert!(covers(&matrix, 2, 0));
    assert!(covers(&matrix, 0, 5));
    assert!(!covers(&matrix, 3, 2));
    assert!(!covers(&matrix, 2, 3));
    assert!(!covers(&vec![vec![1.0f32, 2.0], vec![3.0]], 2, 2));
    assert!(covers(&vec![vec![1.0f32, 2.0], vec![3.0]], 1, 2));
}

/// The coupling of two nodes at `distance`: an inverse cube with a unit
/// floor, at a phase of 45 degrees.
fn coupling(distance: f32) -> (f32, f32) {
    let magnitude = (distance + 1.0).powi(-3) / 2.0f32.sqrt();
    (magnitude, magnitude)
}

fn add_scaled(acc: (f32, f32), sample: (f32, f32), c: (f32, f32)) -> (f32, f32) {
    (
        acc.0 + (sample.0 * c.0 - sample.1 * c.1),
        acc.1 + (sample.0 * c.1 + sample.1 * c.0),
    )
}

#[test]
fn combine_superposes_every_transmitter_for_every_receiver() {
    let distance = vec![vec![0.1f32, 25.0], vec![25.0, 0.1]];
    let mut processor = ChannelProcessor::new(2, 2, distance);
    let mut first = frame(0, 0.0);
    let mut second = frame(0, 0.0);
    for i in 0..1024 {
        first.samples[i] = (i as f32, 1.0);
        second.samples[i] = (-2.0, 0.5 * i as f32);
    }
    assert_eq!(processor.insert(0, first.clone()), Ok(()));
    assert_eq!(processor.insert(1, second.clone()), Ok(()));
    let (epoch, entries) = processor.release().unwrap();
    let frames = processor.combine(epoch, &entries, (0.0, 0.0), &coupling, &add_scaled);
    assert_eq!(frames.len(), 2);
    let near = coupling(0.1);
    let far = coupling(25.0);
    assert_eq!(near.0, 1.1f32.powi(-3) / 2.0f32.sqrt());
    assert_eq!(far.0, 26.0f32.powi(-3) / 2.0f32.sqrt());
    for (receiver, out) in frames.iter().enumerate() {
        assert_eq!(out.epoch, 0);
        let (c0, c1) = if receiver == 0 { (near, far) } else { (far, near) };
        for i in 0..1024 {
            let expected =
                add_scaled(add_scaled((0.0, 0.0), first.samples[i], c0), second.samples[i], c1);
            assert_eq!(out.samples[i], expected);
        }
    }
}

#[test]
fn combine_makes_one_coefficient_for_each_entry_and_receiver() {
    let calls = std::cell::Cell::new(0usize);
    let coefficient = |distance: i32| {
        calls.set(calls.get() + 1);
        distance * 10
    };
    let mix = |acc: i32, sample: i32, c: i32| acc + sample * c;
    let mut processor = ChannelProcessor::new(2, 3, vec![vec![1, 2, 3], vec![4, 5, 6]]);
    assert_eq!(processor.insert(1, IqFrame { epoch: 9, samples: [1i32; 1024] }), Ok(()));
    assert_eq!(processor.insert(0, IqFrame { epoch: 9, samples: [2i32; 1024] }), Ok(()));
    let (epoch, entries) = processor.release().unwrap();
    let frames = processor.combine(epoch, &entries, 0, &coefficient, &mix);
    assert_eq!(calls.get(), 6);
    let expected = [1 * 40 + 2 * 10, 1 * 50 + 2 * 20, 1 * 60 + 2 * 30];
    for (receiver, frame) in frames.iter().enumerate() {
        assert_eq!(frame.epoch, 9);
        assert!(frame.samples.iter().all(|&s| s == expected[receiver]));
    }
}

#[test]
fn combine_without_entries_gives_silence_to_every_receiver() {
    let processor = ChannelProcessor::<i32, i32>::new(0, 3, Vec::new());
    let mix = |acc: i32, sample: i32, c: i32| acc + sample * c;
    let frames = processor.combine(11, &Vec::new(), 0, &|d: i32| d, &mix);
    assert_eq!(frames.len(), 3);
    for frame in &frames {
        assert_eq!(frame.epoch, 11);
        assert!(frame.samples.iter().all(|&s| s == 0));
    }
}

#[test]
fn combine_for_no_receiver_gives_no_frame() {
    let mut processor = ChannelProcessor::new(1, 0, vec![Vec::<i32>::new()]);
    assert_eq!(processor.insert(0, IqFrame { epoch: 0, samples: [1i32; 1024] }), Ok(()));
    let (epoch, entries) = processor.release().unwrap();
    let mix = |acc: i32, sample: i32, c: i32| acc + sample * c;
    assert!(processor.combine(epoch, &entries, 0, &|d: i32| d, &mix).is_empty());
}

#[test]
fn a_stream_survives_a_channel_that_changes_nothing() {
    let input: Vec<f32> = (0..3000).map(|i| (i as f32).sin()).collect();
    let mut publisher = ChannelPublisher::new(0.0f32);
    let mut processor = ChannelProcessor::new(1, 1, vec![vec![0.0f32]]);
    let mut subscriber = ChannelSubscriber::new(0.0f32);
    let unit = |_distance: f32| 1.0f32;
    let scaled_add = |acc: f32, sample: f32, c: f32| acc + sample * c;
    let mut epochs = Vec::new();
    for frame in publisher.packetize(&input) {
        assert_eq!(processor.insert(0, frame), Ok(()));
        let (epoch, entries) = processor.release().unwrap();
        epochs.push(epoch);
        for combined in processor.combine(epoch, &entries, 0.0, &unit, &scaled_add) {
            subscriber.push(combined);
        }
    }
    assert_eq!(epochs, vec![0, 1, 2]);
    let out = subscriber.work(3072);
    assert_eq!(&out[..3000], &input[..]);
    assert!(out[3000..].iter().all(|&s| s == 0.0));
}
