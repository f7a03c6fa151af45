//! The decoder as a message handler: what arrives at its input, what it
//! answers, and the annotated payload of an accepted frame.

use vstd::prelude::*;

use crate::decoder::{Decoded, Decoder, Frame};

verus! {

/// What can arrive at the input of the decoder.
#[derive(Debug)]
pub enum Message<V> {
    /// A demodulated frame.
    Frame(Frame<V>),
    /// The sender has no more frames.
    Finished,
    /// Anything else.
    Other,
}

/// The answer of the decoder to a message.
#[derive(Debug, Clone, Copy, PartialEq, Eq, Structural)]
pub enum Reply {
    /// The message was handled.
    Accepted,
    /// The message is none that the decoder handles.
    InvalidValue,
}

/// One value of the annotated payload.
#[derive(Debug)]
pub enum Annotation<V> {
    /// Bytes.
    Blob(Vec<u8>),
    /// A count.
    Usize(usize),
    /// A flag.
    Bool(bool),
    /// A value that came with the frame.
    Carried(V),
}

/// An annotation value as contracts see it.
pub enum AnnotationView<V> {
    /// Bytes.
    Blob(Seq<u8>),
    /// A count.
    Usize(usize),
    /// A flag.
    Bool(bool),
    /// A value that came with the frame.
    Carried(V),
}

impl<V> View for Annotation<V> {
    type V = AnnotationView<V>;

    open spec fn view(&self) -> AnnotationView<V> {
        match self {
            Annotation::Blob(bytes) => AnnotationView::Blob(bytes@),
            Annotation::Usize(count) => AnnotationView::Usize(*count),
            Annotation::Bool(flag) => AnnotationView::Bool(*flag),
            Annotation::Carried(value) => AnnotationView::Carried(*value),
        }
    }
}

/// What handling one message produces.
#[derive(Debug)]
pub struct Handled<V> {
    /// The answer to the sender.
    pub reply: Reply,
    /// The decoder has seen the end of its input.
    pub finished: bool,
    /// The outputs of decoding, where the message was a frame.
    pub decoded: Option<Decoded>,
    /// The annotated payload of an accepted frame, as entries in the order
    /// in which they are to be entered into a map: of two entries with one
    /// key the later one stays.
    pub annotated: Option<Vec<(String, Annotation<V>)>>,
}

/// The entries of an annotated payload as contracts see them.
pub open spec fn entry_views<V>(entries: Seq<(String, Annotation<V>)>) -> Seq<
    (Seq<char>, AnnotationView<V>),
> {
    entries.map_values(|e: (String, Annotation<V>)| (e.0@, e.1@))
}

/// The annotations that came with a frame, as entries.
pub open spec fn carried<V>(inherited: Seq<(String, V)>) -> Seq<(Seq<char>, AnnotationView<V>)> {
    inherited.map_values(|e: (String, V)| (e.0@, AnnotationView::Carried(e.1)))
}

/// The map that entering `entries` one after the other gives.
pub open spec fn merged<V>(entries: Seq<(Seq<char>, AnnotationView<V>)>) -> Map<
    Seq<char>,
    AnnotationView<V>,
>
    decreases entries.len(),
{
    if entries.len() == 0 {
        Map::empty()
    } else {
        merged(entries.drop_last()).insert(entries.last().0, entries.last().1)
    }
}

impl<V> Frame<V> {
    /// The three entries that the decoder adds behind what came with the
    /// frame.
    pub open spec fn flags(&self) -> Seq<(Seq<char>, AnnotationView<V>)> {
        seq![
            ("code_rate"@, AnnotationView::Usize(self.code_rate)),
            ("has_crc"@, AnnotationView::Bool(self.has_crc)),
            ("implicit_header"@, AnnotationView::Bool(self.implicit_header)),
        ]
    }

    /// The annotated payload of this frame: the payload, then what came
    /// with the frame, then code rate, CRC presence and header mode.
    pub open spec fn annotated(&self) -> Seq<(Seq<char>, AnnotationView<V>)> {
        seq![("payload"@, AnnotationView::Blob(self.payload()))] + carried(self.annotations@)
            + self.flags()
    }

    /// What handling this frame produces.
    pub open spec fn handled_as(&self, out: Handled<V>) -> bool {
        &&& !out.finished
        &&& self.decodable() ==> {
            &&& out.reply == Reply::Accepted
            &&& out.decoded is Some
            &&& self.decodes_to(out.decoded->0)
            &&& out.annotated is Some <==> self.crc_passed()
            &&& out.annotated is Some ==> entry_views(out.annotated->0@) == self.annotated()
        }
        &&& !self.decodable() ==> {
            &&& out.reply == Reply::InvalidValue
            &&& out.decoded is None
            &&& out.annotated is None
        }
    }
}

/// Of the entries with one key the last one stays: an entry that no later
/// entry shares its key with is found in the merged map.
pub proof fn lemma_merged_at<V>(entries: Seq<(Seq<char>, AnnotationView<V>)>, i: int)
    requires
        0 <= i < entries.len(),
        forall|j: int| i < j < entries.len() ==> (#[trigger] entries[j]).0 != entries[i].0,
    ensures
        merged(entries).dom().contains(entries[i].0),
        merged(entries)[entries[i].0] == entries[i].1,
    decreases entries.len(),
{
    if i < entries.len() - 1 {
        let front = entries.drop_last();
        assert forall|j: int| i < j < front.len() implies (#[trigger] front[j]).0
            != front[i].0 by {}
        lemma_merged_at(front, i);
    }
}

/// The three entries that the decoder adds are found in the merged map
/// whatever came with the frame, and so is the payload where nothing that
/// came with the frame is called `payload`.
pub proof fn lemma_flags_stay<V>(frame: Frame<V>)
    ensures
        ({
            let map = merged(frame.annotated());
            &&& map.dom().contains("code_rate"@)
            &&& map["code_rate"@] == AnnotationView::<V>::Usize(frame.code_rate)
            &&& map.dom().contains("has_crc"@)
            &&& map["has_crc"@] == AnnotationView::<V>::Bool(frame.has_crc)
            &&& map.dom().contains("implicit_header"@)
            &&& map["implicit_header"@] == AnnotationView::<V>::Bool(frame.implicit_header)
            &&& (forall|k: int|
                0 <= k < frame.annotations@.len() ==> (#[trigger] frame.annotations@[k]).0@
                    != "payload"@) ==> map.dom().contains("payload"@) && map["payload"@]
                == AnnotationView::<V>::Blob(frame.payload())
        }),
{
    reveal_strlit("payload");
    reveal_strlit("code_rate");
    reveal_strlit("has_crc");
    reveal_strlit("implicit_header");
    let entries = frame.annotated();
    let n = frame.annotations@.len() as int;
    assert("payload"@[0] != "has_crc"@[0]);
    assert("code_rate"@.len() == 9 && "implicit_header"@.len() == 15);
    lemma_merged_at(entries, n + 1);
    lemma_merged_at(entries, n + 2);
    lemma_merged_at(entries, n + 3);
    if forall|k: int|
        0 <= k < frame.annotations@.len() ==> (#[trigger] frame.annotations@[k]).0@ != "payload"@ {
        assert forall|j: int| 0 < j < entries.len() implies (#[trigger] entries[j]).0
            != entries[0].0 by {}
        lemma_merged_at(entries, 0);
    }
}

/// Copies bytes.
fn copy_bytes(bytes: &Vec<u8>) -> (copy: Vec<u8>)
    ensures
        copy@ == bytes@,
{
    let mut copy: Vec<u8> = Vec::new();
    let mut i: usize = 0;
    while i < bytes.len()
        invariant
            i <= bytes@.len(),
            copy@ == bytes@.take(i as int),
        decreases bytes@.len() - i,
    {
        copy.push(bytes[i]);
        i += 1;
    }
    copy
}

impl Decoder {
    /// Handles one message.
    ///
    /// A frame is decoded; where it is accepted, its annotated payload is
    /// built. A frame that the whitening sequence does not reach to the
    /// end is answered with `InvalidValue`, like a message of another kind.
    /// The end of the input is noted in `finished`.
    pub fn handle<V>(&self, message: Message<V>) -> (out: Handled<V>)
        ensures
            message is Finished ==> {
                &&& out.reply == Reply::Accepted
                &&& out.finished
                &&& out.decoded is None
                &&& out.annotated is None
            },
            message is Other ==> {
                &&& out.reply == Reply::InvalidValue
                &&& !out.finished
                &&& out.decoded is None
                &&& out.annotated is None
            },
            message matches Message::Frame(frame) ==> frame.handled_as(out),
    {
        match message {
            Message::Frame(frame) => {
                if !frame.is_decodable() {
                    return Handled {
                        reply: Reply::InvalidValue,
                        finished: false,
                        decoded: None,
                        annotated: None,
                    };
                }
                let decoded = Decoder::decode(&frame);
                let annotated = match &decoded.payload {
                    Some(payload) => {
                        let ghost target = frame.annotated();
                        let ghost inherited = frame.annotations@;
                        let mut entries: Vec<(String, Annotation<V>)> = Vec::new();
                        entries.push(("payload".to_owned(), Annotation::Blob(copy_bytes(payload))));
                        let code_rate = frame.code_rate;
                        let has_crc = frame.has_crc;
                        let implicit_header = frame.implicit_header;
                        proof {
                            assert forall|i: int| 0 <= i < inherited.len() implies (
                            #[trigger] target[i + 1]) == (
                                inherited[i].0@,
                                AnnotationView::Carried(inherited[i].1),
                            ) by {}
                        }
                        let mut reversed: Vec<(String, V)> = Vec::new();
                        let mut rest = frame.annotations;
                        while rest.len() > 0
                            invariant
                                rest@.len() + reversed@.len() == inherited.len(),
                                rest@ == inherited.take(rest@.len() as int),
                                forall|i: int|
                                    0 <= i < reversed@.len() ==> reversed@[i] == inherited[
                                        inherited.len() - 1 - i],
                            decreases rest@.len(),
                        {
                            match rest.pop() {
                                Some(entry) => reversed.push(entry),
                                None => {},
                            }
                        }
                        while reversed.len() > 0
                            invariant
                                entries@.len() >= 1,
                                reversed@.len() + entries@.len() == inherited.len() + 1,
                                forall|i: int|
                                    0 <= i < reversed@.len() ==> reversed@[i] == inherited[
                                        inherited.len() - 1 - i],
                                entry_views(entries@) == target.take(entries@.len() as int),
                                target.len() == inherited.len() + 4,
                                forall|i: int|
                                    0 <= i < inherited.len() ==> #[trigger] target[i + 1] == (
                                        inherited[i].0@,
                                        AnnotationView::Carried(inherited[i].1),
                                    ),
                            decreases reversed@.len(),
                        {
                            match reversed.pop() {
                                Some(entry) => {
                                    let ghost at = entries@.len() as int;
                                    entries.push((entry.0, Annotation::Carried(entry.1)));
                                    proof {
                                        assert(target[(at - 1) + 1] == (
                                            inherited[at - 1].0@,
                                            AnnotationView::Carried(inherited[at - 1].1),
                                        ));
                                    }
                                },
                                None => {},
                            }
                        }
                        let ghost front = entries@;
                        entries.push(("code_rate".to_owned(), Annotation::Usize(code_rate)));
                        entries.push(("has_crc".to_owned(), Annotation::Bool(has_crc)));
                        entries.push(
                            ("implicit_header".to_owned(), Annotation::Bool(implicit_header)),
                        );
                        proof {
                            let n = inherited.len() as int;
                            assert forall|i: int| 0 <= i < n + 4 implies entry_views(entries@)[i]
                                == target[i] by {
                                if i <= n {
                                    assert(entry_views(front)[i] == target.take(n + 1)[i]);
                                }
                            }
                            assert(entry_views(entries@) == target);
                        }
                        Some(entries)
                    },
                    None => None,
                };
                Handled {
                    reply: Reply::Accepted,
                    finished: false,
                    decoded: Some(decoded),
                    annotated,
                }
            },
            Message::Finished => Handled {
                reply: Reply::Accepted,
                finished: true,
                decoded: None,
                annotated: None,
            },
            Message::Other => Handled {
                reply: Reply::InvalidValue,
                finished: false,
                decoded: None,
                annotated: None,
            },
        }
    }
}

} // verus!
