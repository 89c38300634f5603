//! The list of topics and their subscribers, as the topic service keeps it
//! under one key of the store.

use crate::text::str_eq;
use vstd::prelude::*;
use vstd::string::StringExecFns;

verus! {

/// What the topic service can fail with.
pub enum TopicServiceError {
    /// No topic has this name.
    TopicNotFound(String),
    /// The list in the store does not parse.
    Serde,
    /// The store failed; the cause is in the log.
    DatabaseError,
}

/// Who is told of the messages of a topic.
pub struct SubscriptionEntry {
    pub name: String,
    pub endpoint: String,
}

/// One topic.
pub struct TopicEntry {
    pub name: String,
    pub owner: String,
    pub subscribers: Vec<SubscriptionEntry>,
}

/// All topics, in the order in which they were made.
pub struct TopicList(pub Vec<TopicEntry>);

/// The place of the first topic named `name` among the first `upto` of
/// `list`; `upto` where none of them has the name.
pub open spec fn first_named(list: Seq<TopicEntry>, name: Seq<char>, upto: int) -> int
    decreases upto,
{
    if upto <= 0 {
        0
    } else {
        let before = first_named(list, name, upto - 1);
        if before < upto - 1 {
            before
        } else if list[upto - 1].name@ == name {
            upto - 1
        } else {
            upto
        }
    }
}

/// The text of the error for a topic that does not exist.
pub open spec fn not_found_text(name: Seq<char>) -> Seq<char> {
    "Topic "@ + name + " doesn't exist"@
}

impl TopicServiceError {
    /// The error in words.
    pub fn to_string(&self) -> (r: String)
        ensures
            r@ == (match *self {
                TopicServiceError::TopicNotFound(name) => not_found_text(name@),
                TopicServiceError::Serde => "The topic list does not parse"@,
                TopicServiceError::DatabaseError => "Internal database error, check logs"@,
            }),
    {
        match self {
            TopicServiceError::TopicNotFound(name) => "Topic ".to_owned().concat(
                name.as_str(),
            ).concat(" doesn't exist"),
            TopicServiceError::Serde => "The topic list does not parse".to_owned(),
            TopicServiceError::DatabaseError => "Internal database error, check logs".to_owned(),
        }
    }
}

impl TopicList {
    /// The key of the store under which the list lies.
    pub fn key() -> (r: &'static str)
        ensures
            r@ == "topics"@,
    {
        "topics"
    }

    /// Where the first topic named `topic_name` stands in the list.
    pub fn find_topic_in_list(&self, topic_name: &str) -> (r: Result<usize, TopicServiceError>)
        ensures
            match r {
                Ok(at) => at == first_named(self.0@, topic_name@, self.0@.len() as int) && at
                    < self.0@.len() && self.0@[at as int].name@ == topic_name@,
                Err(e) => {
                    &&& first_named(self.0@, topic_name@, self.0@.len() as int) == self.0@.len()
                    &&& e matches TopicServiceError::TopicNotFound(name) && name@ == topic_name@
                },
            },
    {
        let mut i: usize = 0;
        while i < self.0.len()
            invariant
                i <= self.0.len(),
                first_named(self.0@, topic_name@, i as int) == i,
            decreases self.0.len() - i,
        {
            if str_eq(self.0[i].name.as_str(), topic_name) {
                proof {
                    lemma_first_named_stays(self.0@, topic_name@, i + 1, self.0@.len() as int);
                }
                return Ok(i);
            }
            i = i + 1;
        }
        Err(TopicServiceError::TopicNotFound(topic_name.to_owned()))
    }

    /// Whether a topic of this name exists.
    pub fn topic_exists(&self, topic_name: &str) -> (r: bool)
        ensures
            r == (first_named(self.0@, topic_name@, self.0@.len() as int) < self.0@.len()),
    {
        match self.find_topic_in_list(topic_name) {
            Ok(_) => true,
            Err(_) => false,
        }
    }

    /// Adds a subscriber to the first topic named `topic_name`.
    pub fn subscribe_topic(&mut self, topic_name: &str, subscription_entry: SubscriptionEntry) -> (r:
        Result<(), TopicServiceError>)
        ensures
            final(self).0@.len() == old(self).0@.len(),
            match r {
                Ok(_) => {
                    let at = first_named(old(self).0@, topic_name@, old(self).0@.len() as int);
                    &&& at < old(self).0@.len()
                    &&& final(self).0@[at].name == old(self).0@[at].name
                    &&& final(self).0@[at].owner == old(self).0@[at].owner
                    &&& final(self).0@[at].subscribers@ == old(self).0@[at].subscribers@.push(
                        subscription_entry,
                    )
                    &&& forall|i: int|
                        0 <= i < old(self).0@.len() && i != at ==> final(self).0@[i] == old(
                            self,
                        ).0@[i]
                },
                Err(e) => {
                    &&& first_named(old(self).0@, topic_name@, old(self).0@.len() as int) == old(
                        self,
                    ).0@.len()
                    &&& e matches TopicServiceError::TopicNotFound(name) && name@ == topic_name@
                    &&& final(self).0@ == old(self).0@
                },
            },
    {
        let at = match self.find_topic_in_list(topic_name) {
            Ok(at) => at,
            Err(e) => {
                return Err(e);
            },
        };
        self.0[at].subscribers.push(subscription_entry);
        Ok(())
    }

    /// Adds a topic at the end of the list.
    pub fn create_topic(&mut self, topic: TopicEntry)
        ensures
            final(self).0@ == old(self).0@.push(topic),
    {
        self.0.push(topic);
    }
}

/// Once a topic of the name was found, it stays the first.
pub proof fn lemma_first_named_stays(list: Seq<TopicEntry>, name: Seq<char>, from: int, to: int)
    requires
        0 < from <= to,
        first_named(list, name, from) < from,
    ensures
        first_named(list, name, to) == first_named(list, name, from),
    decreases to - from,
{
    if from < to {
        lemma_first_named_stays(list, name, from, to - 1);
    }
}

} // verus!
