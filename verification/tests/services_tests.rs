use czkawka::api::{create_shared_state, describe, get_offset, index, read, web_main, web_topic,
    Database, SubscriberDTO, TopicDTO};
use czkawka::copper::Copper;
use czkawka::kopper::KopperError;
use czkawka::stats::{caption, max, percentiles, Counters, Stat};
use czkawka::storage::{Message, MessageQueue, Storage};
use czkawka::templater::Templater;
use czkawka::topic::{SubscriptionEntry, TopicEntry, TopicList, TopicServiceError};

struct Failing;

impl Database for Failing {
    fn read(&self, _key: &str) -> Result<Option<String>, KopperError> {
        Err(KopperError::IO)
    }

    fn write(&self, _key: &str, _value: &str) -> Result<u64, KopperError> {
        Err(KopperError::Parse)
    }
}

struct Empty;

impl Database for Empty {
    fn read(&self, _key: &str) -> Result<Option<String>, KopperError> {
        Ok(None)
    }

    fn write(&self, _key: &str, _value: &str) -> Result<u64, KopperError> {
        Ok(0)
    }
}

fn message(payload: &str) -> Message {
    Message { payload: payload.to_string(), metadata: String::new() }
}

#[test]
fn test_simple_write() {
    let copper = create_shared_state();
    let response = czkawka::api::write("lowkey", "highvalue", &copper);
    assert_eq!(format!("{{\"error\":\"{}\"}}", response.error), "{\"error\":\"OK\"}");
}

#[test]
fn copper_answers_with_the_key() {
    let copper = Copper::start("copper.db");
    assert_eq!(copper.read("lowkey".to_string()), Some("Value for lowkey".to_string()));
    assert_eq!(copper.write("lowkey".to_string(), "highvalue".to_string()), Some(()));
    let response = read("lowkey", &copper);
    assert_eq!((response.value.as_str(), response.error.as_str()), ("Value for lowkey", "OK"));
}

#[test]
fn answers_follow_the_store() {
    let response = read("k", &Failing);
    assert_eq!((response.value.as_str(), response.error.as_str()), ("", "Internal Error"));
    assert_eq!(czkawka::api::write("k", "v", &Failing).error, "Error while writing! : Parse");
    let response = read("k", &Empty);
    assert_eq!((response.value.as_str(), response.error.as_str()), ("", "k does not exist!"));
    assert_eq!(czkawka::api::write("k", "v", &Empty).error, "OK");
    assert_eq!(describe(KopperError::IO), "IO");
    assert_eq!(get_offset(), "offset");
}

#[test]
fn pages() {
    let templater = Templater::new("web");
    let html = b"<a href=\"{url}\">{ browser_url }</a>".to_vec();
    assert_eq!(web_main(&templater, &html), "<a href=\"/admin/module/main\">/admin</a>");
    assert_eq!(
        web_topic("news", &templater, &html),
        "<a href=\"/admin/module/topic/news\">/admin/topic/news</a>"
    );
    assert_eq!(index(&templater, &b"<b>main</b>".to_vec()), "<b>main</b>");
    assert_eq!(index(&templater, &html), "Error parsing template! Missing attribute: url");
    let form = TopicDTO { name: "asd".to_string(), owner: "fff".to_string() };
    assert_eq!((form.name.as_str(), form.owner.as_str()), ("asd", "fff"));
    let form = SubscriberDTO { name: "sub".to_string(), endpoint: "http://x".to_string() };
    assert_eq!((form.name.as_str(), form.endpoint.as_str()), ("sub", "http://x"));
}

#[test]
fn topics_have_their_queues() {
    let mut storage = Storage::create_storage().unwrap();
    assert!(!storage.topic_exists(&"news".to_string()));
    assert_eq!(storage.create_topic("news".to_string()), Ok("news".to_string()));
    assert!(storage.topic_exists(&"news".to_string()));
    assert_eq!(
        storage.create_topic("news".to_string()),
        Err("topic with name: news already exists".to_string())
    );
    assert_eq!(storage.create_topic("sport".to_string()), Ok("sport".to_string()));
    assert_eq!(storage.add_message("news".to_string(), message("one")), Ok(1));
    assert_eq!(storage.add_message("news".to_string(), message("two")), Ok(2));
    assert_eq!(storage.add_message("sport".to_string(), message("goal")), Ok(1));
    assert_eq!(
        storage.add_message("chess".to_string(), message("mate")),
        Err("Topic: chess doesn't exist".to_string())
    );
}

#[test]
fn a_queue_counts_its_messages() {
    let mut queue = MessageQueue::new();
    assert_eq!(queue.offset(), 0);
    queue.add_message(message("a"));
    queue.add_message(message("b"));
    assert_eq!(queue.offset(), 2);
}

#[test]
fn the_topic_list() {
    let topic = |name: &str| TopicEntry {
        name: name.to_string(),
        owner: "owner".to_string(),
        subscribers: vec![],
    };
    let mut list = TopicList(vec![]);
    assert_eq!(TopicList::key(), "topics");
    assert!(!list.topic_exists("news"));
    list.create_topic(topic("news"));
    list.create_topic(topic("sport"));
    list.create_topic(topic("news"));
    assert!(list.topic_exists("sport"));
    assert!(matches!(list.find_topic_in_list("news"), Ok(0)));
    assert!(matches!(list.find_topic_in_list("sport"), Ok(1)));
    let subscription = SubscriptionEntry { name: "me".to_string(), endpoint: "http://me".to_string() };
    assert!(list.subscribe_topic("news", subscription).is_ok());
    assert_eq!(list.0[0].subscribers.len(), 1);
    assert_eq!(list.0[0].subscribers[0].endpoint, "http://me");
    assert_eq!(list.0[2].subscribers.len(), 0);
    let subscription = SubscriptionEntry { name: "me".to_string(), endpoint: "http://me".to_string() };
    let error = list.subscribe_topic("chess", subscription).unwrap_err();
    assert_eq!(error.to_string(), "Topic chess doesn't exist");
    assert_eq!(
        TopicServiceError::DatabaseError.to_string(),
        "Internal database error, check logs"
    );
    assert_eq!(TopicServiceError::Serde.to_string(), "The topic list does not parse");
}

#[test]
fn measurements() {
    let mut counters = Counters::new();
    counters.record(Stat::ReadTime(5));
    counters.record(Stat::Size(7));
    counters.record(Stat::ReadTime(6));
    counters.record(Stat::WriteTime(9));
    assert_eq!(counters.read_counter, vec![5, 6]);
    assert_eq!(counters.write_counter, vec![9]);
    assert_eq!(counters.size, vec![7]);

    assert_eq!(max(&vec![]), 1);
    assert_eq!(max(&vec![3, 9, 4]), 9);
    let data: Vec<u128> = (1..=200).rev().map(|n| n * 1000).collect();
    let p = percentiles(&data);
    assert_eq!((p.p50, p.p95, p.p99), (101, 191, 199));
    let p = percentiles(&vec![2500]);
    assert_eq!((p.p50, p.p95, p.p99), (2, 2, 2));
    assert_eq!(caption("Reads", "us", &p), "Reads, p50: 2us, p95: 2us, p99: 2us");
}
