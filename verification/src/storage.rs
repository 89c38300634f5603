//! The broker's store of messages in memory: one queue for each topic.

use vstd::hash_map::StringHashMap;
use vstd::prelude::*;
use vstd::string::StringExecFns;

verus! {

/// One message of a topic.
pub struct Message {
    pub payload: String,
    pub metadata: String,
}

/// The messages of one topic, oldest first, and how many were added.
pub struct MessageQueue {
    queue: Vec<Message>,
    offset: i32,
}

/// A queue as mathematics.
pub struct QueueState {
    pub messages: Seq<Message>,
    pub offset: i32,
}

impl View for MessageQueue {
    type V = QueueState;

    closed spec fn view(&self) -> QueueState {
        QueueState { messages: self.queue@, offset: self.offset }
    }
}

impl MessageQueue {
    /// An empty queue.
    pub fn new() -> (r: MessageQueue)
        ensures
            r@.messages == Seq::<Message>::empty(),
            r@.offset == 0,
    {
        MessageQueue { queue: Vec::new(), offset: 0 }
    }

    /// Adds a message at the end of the queue.
    pub fn add_message(&mut self, message: Message)
        requires
            old(self)@.offset < i32::MAX,
        ensures
            final(self)@.messages == old(self)@.messages.push(message),
            final(self)@.offset == old(self)@.offset + 1,
    {
        self.offset += 1;
        self.queue.push(message);
    }

    /// The number of messages that were added.
    pub fn offset(&self) -> (r: i32)
        ensures
            r == self@.offset,
    {
        self.offset
    }
}

/// `core::fmt::Error`: the error that the making of a store is declared
/// with. Nothing is known of its inside.
#[verifier::external_type_specification]
#[verifier::external_body]
pub struct ExFmtError(core::fmt::Error);

/// The queues of all topics, by the topics' names.
pub struct Storage {
    store: StringHashMap<usize>,
    queues: Vec<MessageQueue>,
}

/// The text of the error for a topic that exists already.
pub open spec fn already_exists(name: Seq<char>) -> Seq<char> {
    "topic with name: "@ + name + " already exists"@
}

/// The text of the error for a topic that does not exist.
pub open spec fn does_not_exist(name: Seq<char>) -> Seq<char> {
    "Topic: "@ + name + " doesn't exist"@
}

impl View for Storage {
    type V = Map<Seq<char>, QueueState>;

    closed spec fn view(&self) -> Map<Seq<char>, QueueState> {
        Map::new(
            |name: Seq<char>| self.store@.contains_key(name),
            |name: Seq<char>| self.queues@[self.store@[name] as int]@,
        )
    }
}

impl Storage {
    /// Every topic has its queue, and no two topics share one.
    pub closed spec fn wf(&self) -> bool {
        &&& forall|name: Seq<char>| #[trigger]
            self.store@.contains_key(name) ==> self.store@[name] < self.queues@.len()
        &&& forall|a: Seq<char>, b: Seq<char>|
            self.store@.contains_key(a) && self.store@.contains_key(b) && a != b ==> self.store@[a]
                != self.store@[b]
    }

    /// A store without topics.
    pub fn create_storage() -> (r: Result<Storage, core::fmt::Error>)
        ensures
            r matches Ok(s) && s.wf() && s@ == Map::<Seq<char>, QueueState>::empty(),
    {
        let s = Storage { store: StringHashMap::new(), queues: Vec::new() };
        proof {
            assert(s@ =~= Map::<Seq<char>, QueueState>::empty());
        }
        Ok(s)
    }

    /// Whether the topic exists.
    pub fn topic_exists(&self, topic_name: &String) -> (r: bool)
        ensures
            r == self@.contains_key(topic_name@),
    {
        self.store.contains_key(topic_name.as_str())
    }

    /// Makes a topic with an empty queue and returns its name; an error for a
    /// name that is taken.
    pub fn create_topic(&mut self, topic_name: String) -> (r: Result<String, String>)
        requires
            old(self).wf(),
        ensures
            final(self).wf(),
            match r {
                Ok(name) => {
                    &&& !old(self)@.contains_key(topic_name@)
                    &&& name@ == topic_name@
                    &&& final(self)@ == old(self)@.insert(
                        topic_name@,
                        QueueState { messages: Seq::empty(), offset: 0 },
                    )
                },
                Err(text) => {
                    &&& old(self)@.contains_key(topic_name@)
                    &&& text@ == already_exists(topic_name@)
                    &&& final(self)@ == old(self)@
                },
            },
    {
        if self.topic_exists(&topic_name) {
            return Err(
                "topic with name: ".to_owned().concat(topic_name.as_str()).concat(
                    " already exists",
                ),
            );
        }
        let message_queue = MessageQueue::new();
        let at = self.queues.len();
        self.queues.push(message_queue);
        self.store.insert(topic_name.clone(), at);
        proof {
            assert(self@ =~= old(self)@.insert(
                topic_name@,
                QueueState { messages: Seq::empty(), offset: 0 },
            ));
        }
        Ok(topic_name)
    }

    /// Whether the queue of the topic can take one more message: the topic
    /// does not exist, or its count of messages is below the largest.
    pub open spec fn has_room(&self, topic_name: Seq<char>) -> bool {
        self@.contains_key(topic_name) ==> self@[topic_name].offset < i32::MAX
    }

    /// Adds a message to the queue of a topic, and returns how many the queue
    /// has then taken; an error for a topic that does not exist.
    pub fn add_message(&mut self, topic_name: String, message: Message) -> (r: Result<i32, String>)
        requires
            old(self).wf(),
            old(self).has_room(topic_name@),
        ensures
            final(self).wf(),
            match r {
                Ok(offset) => {
                    &&& old(self)@.contains_key(topic_name@)
                    &&& offset == old(self)@[topic_name@].offset + 1
                    &&& final(self)@ == old(self)@.insert(
                        topic_name@,
                        QueueState {
                            messages: old(self)@[topic_name@].messages.push(message),
                            offset,
                        },
                    )
                },
                Err(text) => {
                    &&& !old(self)@.contains_key(topic_name@)
                    &&& text@ == does_not_exist(topic_name@)
                    &&& final(self)@ == old(self)@
                },
            },
    {
        let at: usize = match self.store.get(topic_name.as_str()) {
            Some(at) => *at,
            None => {
                return Err(
                    "Topic: ".to_owned().concat(topic_name.as_str()).concat(" doesn't exist"),
                );
            },
        };
        let mut queue = MessageQueue::new();
        core::mem::swap(&mut queue, &mut self.queues[at]);
        queue.add_message(message);
        let offset = queue.offset();
        core::mem::swap(&mut queue, &mut self.queues[at]);
        proof {
            assert(self@ =~= old(self)@.insert(
                topic_name@,
                QueueState { messages: old(self)@[topic_name@].messages.push(message), offset },
            ));
        }
        Ok(offset)
    }
}

} // verus!
