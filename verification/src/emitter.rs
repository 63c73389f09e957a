//! Mirroring committed mutations to an external message broker.
//!
//! The verified part is the buffering discipline: a queue of messages filled
//! by `put` or `enqueue` and drained in full towards a producer. The producer
//! itself — the network client — stays outside the library, behind the
//! `KafkaProducerTrait` capability that callers implement.

use vstd::prelude::*;

verus! {

/// A sink for emitted events. Implementations deliver each event to the
/// broker; the library promises nothing about delivery itself.
pub trait KafkaProducerTrait {
    /// Hands one event, as a key, a value, and a topic, to the broker.
    fn emit_event(&mut self, key: &str, value: &str, topic: &str);
}

/// The characters that reading a byte string as text yields; a function of
/// the bytes alone.
pub uninterp spec fn utf8_of(b: Seq<u8>) -> Seq<char>;

/// Relies on String::from_utf8_lossy: the characters read from a byte string
/// depend on the bytes alone.
#[verifier::external_body]
fn bytes_to_string(b: &Vec<u8>) -> (r: String)
    ensures
        r@ == utf8_of(b@),
{
    String::from_utf8_lossy(b).into_owned()
}

/// The texts of a message list: each key and each value read as text, paired
/// with the topic.
pub open spec fn message_texts(msgs: Seq<(Vec<u8>, Vec<u8>)>, topic: Seq<char>) -> Seq<
    (Seq<char>, Seq<char>, Seq<char>),
> {
    msgs.map_values(|m: (Vec<u8>, Vec<u8>)| (utf8_of(m.0@), utf8_of(m.1@), topic))
}

/// The views of a sequence of text triples.
pub open spec fn texts_view(s: Seq<(String, String, String)>) -> Seq<
    (Seq<char>, Seq<char>, Seq<char>),
> {
    s.map_values(|t: (String, String, String)| (t.0@, t.1@, t.2@))
}

/// A buffer of raw key-value messages awaiting emission to one topic.
pub struct KafkaQueue {
    /// The buffered messages, oldest first.
    pub messages: Vec<(Vec<u8>, Vec<u8>)>,
}

impl KafkaQueue {
    /// Creates an empty queue.
    pub fn new() -> (r: KafkaQueue)
        ensures
            r.messages@.len() == 0,
    {
        KafkaQueue { messages: Vec::new() }
    }

    /// Buffers one message.
    pub fn put(&mut self, key: Vec<u8>, value: Vec<u8>)
        ensures
            final(self).messages@ == old(self).messages@.push((key, value)),
    {
        self.messages.push((key, value));
    }

    /// The buffered messages.
    pub fn get_messages(&self) -> (r: &Vec<(Vec<u8>, Vec<u8>)>)
        ensures
            r == &self.messages,
    {
        &self.messages
    }

    /// Drains the queue in full, handing every message to the producer as
    /// text, newest first, and returns exactly the key, value and topic texts
    /// handed over, in that order.
    pub fn send_messages<P: KafkaProducerTrait>(&mut self, producer: &mut P, topic: &str) -> (emitted: Vec<(String, String, String)>)
        ensures
            final(self).messages@.len() == 0,
            texts_view(emitted@) == message_texts(old(self).messages@, topic@).reverse(),
    {
        let ghost orig = self.messages@;
        let mut emitted: Vec<(String, String, String)> = Vec::new();
        proof {
            assert(self.messages@ =~= orig.take(self.messages@.len() as int));
        }
        loop
            invariant
                self.messages@ == orig.take(self.messages@.len() as int),
                emitted@.len() == orig.len() - self.messages@.len(),
                forall|t: int|
                    0 <= t < emitted@.len() ==> texts_view(emitted@)[t] == message_texts(
                        orig,
                        topic@,
                    )[orig.len() - 1 - t],
            ensures
                self.messages@.len() == 0,
                emitted@.len() == orig.len(),
                forall|t: int|
                    0 <= t < emitted@.len() ==> texts_view(emitted@)[t] == message_texts(
                        orig,
                        topic@,
                    )[orig.len() - 1 - t],
            decreases self.messages@.len(),
        {
            match self.messages.pop() {
                Some(m) => {
                    let key_text = bytes_to_string(&m.0);
                    let value_text = bytes_to_string(&m.1);
                    producer.emit_event(key_text.as_str(), value_text.as_str(), topic);
                    let ghost em_pre = emitted@;
                    emitted.push((key_text, value_text, topic.to_owned()));
                    proof {
                        let len = self.messages@.len() as int;
                        assert(self.messages@ =~= orig.take(len));
                        assert forall|t: int|
                            0 <= t < emitted@.len() implies texts_view(emitted@)[t]
                            == message_texts(orig, topic@)[orig.len() - 1 - t] by {
                            if t < emitted@.len() - 1 {
                                assert(emitted@[t] == em_pre[t]);
                                assert(texts_view(em_pre)[t] == message_texts(orig, topic@)[orig.len()
                                    - 1 - t]);
                            } else {
                                assert(texts_view(emitted@)[t] == (
                                    utf8_of(orig[len].0@),
                                    utf8_of(orig[len].1@),
                                    topic@,
                                ));
                                assert(message_texts(orig, topic@)[len] == (
                                    utf8_of(orig[len].0@),
                                    utf8_of(orig[len].1@),
                                    topic@,
                                ));
                            }
                        }
                    }
                },
                None => {
                    break ;
                },
            }
        }
        proof {
            assert(texts_view(emitted@) =~~= message_texts(orig, topic@).reverse());
        }
        emitted
    }
}

/// The soft queue bound past which the background emitter drains immediately.
pub const MAX_QUEUE_SIZE: usize = 1000;

/// The in-memory buffer of the background emitter: events enqueued by map
/// callers, drained periodically towards the broker.
pub struct EmitterQueue {
    /// The buffered events, oldest first: key, value, and topic.
    pub events: Vec<(String, String, String)>,
}

impl EmitterQueue {
    /// Creates an empty buffer.
    pub fn new() -> (r: EmitterQueue)
        ensures
            r.events@.len() == 0,
    {
        EmitterQueue { events: Vec::new() }
    }

    /// Buffers one event.
    pub fn enqueue(&mut self, key: String, value: String, topic: String)
        ensures
            final(self).events@ == old(self).events@.push((key, value, topic)),
    {
        self.events.push((key, value, topic));
    }

    /// Whether the next tick of the background worker should drain the
    /// buffer: as soon as anything is buffered, and in particular once the
    /// soft bound is reached.
    pub fn should_drain(&self) -> (r: bool)
        ensures
            r == (self.events@.len() >= MAX_QUEUE_SIZE || self.events@.len() > 0),
    {
        self.events.len() >= MAX_QUEUE_SIZE || self.events.len() > 0
    }

    /// Takes every buffered event out, oldest first, leaving the buffer
    /// empty; the caller delivers them outside the buffer's critical section.
    pub fn take_all(&mut self) -> (r: Vec<(String, String, String)>)
        ensures
            r@ == old(self).events@,
            final(self).events@.len() == 0,
    {
        self.events.split_off(0)
    }
}

} // verus!
