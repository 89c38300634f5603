//! What the servers answer: the shapes of the responses, and the pages of the
//! admin site.

use crate::copper::Copper;
use crate::kopper::file_index::KopperError;
use crate::templater::{rendered, Templater, Variables};
use vstd::prelude::*;
use vstd::string::StringExecFns;
use vstd::utf8::*;

verus! {

/// The answer to a read.
pub struct ReadResponse {
    pub value: String,
    pub error: String,
}

/// The answer to a write.
pub struct WriteResponse {
    pub error: String,
}

/// The form that makes a topic.
pub struct TopicDTO {
    pub name: String,
    pub owner: String,
}

/// The form that subscribes to a topic.
pub struct SubscriberDTO {
    pub name: String,
    pub endpoint: String,
}

/// A store that the servers can put behind their endpoints. Each store says
/// what it owes for a read and for a write; a store that says nothing owes
/// nothing.
pub trait Database {
    /// What the store owes for a read of `key` that it answers with `r`.
    open spec fn owes_read(&self, key: Seq<char>, r: Result<Option<Seq<char>>, KopperError>) -> bool {
        true
    }

    /// What the store owes for a write of `value` under `key` that it answers
    /// with `r`.
    open spec fn owes_write(
        &self,
        key: Seq<char>,
        value: Seq<char>,
        r: Result<u64, KopperError>,
    ) -> bool {
        true
    }

    /// The value of `key`, if the store has one.
    fn read(&self, key: &str) -> (r: Result<Option<String>, KopperError>)
        ensures
            self.owes_read(key@, read_result(r)),
    ;

    /// Puts `value` under `key` and returns the size of the store.
    fn write(&self, key: &str, value: &str) -> (r: Result<u64, KopperError>)
        ensures
            self.owes_write(key@, value@, r),
    ;
}

impl Database for Copper {
    /// Copper has a value for every key: the words `Value for ` and the key.
    open spec fn owes_read(&self, key: Seq<char>, r: Result<Option<Seq<char>>, KopperError>) -> bool {
        r == Ok::<Option<Seq<char>>, KopperError>(Some("Value for "@ + key))
    }

    /// Copper takes every write, and its size stays 0.
    open spec fn owes_write(
        &self,
        key: Seq<char>,
        value: Seq<char>,
        r: Result<u64, KopperError>,
    ) -> bool {
        r == Ok::<u64, KopperError>(0)
    }

    fn read(&self, key: &str) -> Result<Option<String>, KopperError> {
        Ok(Copper::read(self, key.to_owned()))
    }

    fn write(&self, key: &str, value: &str) -> Result<u64, KopperError> {
        match Copper::write(self, key.to_owned(), value.to_owned()) {
            Some(_) => Ok(0),
            None => Err(KopperError::IO),
        }
    }
}

/// The name of an error.
pub open spec fn error_name(e: KopperError) -> Seq<char> {
    match e {
        KopperError::IO => "IO"@,
        KopperError::ParseInt => "ParseInt"@,
        KopperError::Parse => "Parse"@,
    }
}

/// The name of an error.
pub fn describe(e: KopperError) -> (r: &'static str)
    ensures
        r@ == error_name(e),
{
    match e {
        KopperError::IO => "IO",
        KopperError::ParseInt => "ParseInt",
        KopperError::Parse => "Parse",
    }
}

/// The value and the error text of the answer to a read of `key` that the
/// store answered with `result`.
pub open spec fn read_answer(key: Seq<char>, result: Result<Option<Seq<char>>, KopperError>) -> (
    Seq<char>,
    Seq<char>,
) {
    match result {
        Ok(Some(value)) => (value, "OK"@),
        Ok(None) => (Seq::empty(), key + " does not exist!"@),
        Err(_) => (Seq::empty(), "Internal Error"@),
    }
}

/// The error text of the answer to a write that the store answered with
/// `result`.
pub open spec fn write_answer(result: Result<u64, KopperError>) -> Seq<char> {
    match result {
        Ok(_) => "OK"@,
        Err(e) => "Error while writing! : "@ + error_name(e),
    }
}

/// What a store's answer is as mathematics.
pub open spec fn read_result(result: Result<Option<String>, KopperError>) -> Result<
    Option<Seq<char>>,
    KopperError,
> {
    match result {
        Ok(Some(value)) => Ok(Some(value@)),
        Ok(None) => Ok(None),
        Err(e) => Err(e),
    }
}

/// The answer to a read of `key` that the store answered with `result`.
pub fn read_response(key: &str, result: Result<Option<String>, KopperError>) -> (r: ReadResponse)
    ensures
        (r.value@, r.error@) == read_answer(key@, read_result(result)),
{
    match result {
        Ok(Some(value)) => ReadResponse { value, error: "OK".to_owned() },
        Ok(None) => ReadResponse {
            value: String::new(),
            error: key.to_owned().concat(" does not exist!"),
        },
        Err(_) => ReadResponse { value: String::new(), error: "Internal Error".to_owned() },
    }
}

/// The answer to a write that the store answered with `result`.
pub fn write_response(result: Result<u64, KopperError>) -> (r: WriteResponse)
    ensures
        r.error@ == write_answer(result),
{
    match result {
        Ok(_) => WriteResponse { error: "OK".to_owned() },
        Err(e) => WriteResponse { error: "Error while writing! : ".to_owned().concat(describe(e)) },
    }
}

/// Reads `key` from the store and shapes the answer. Whatever the store
/// says, the answer is the one that `read_response` gives for it.
pub fn read<D: Database>(key: &str, db: &D) -> (r: ReadResponse)
    ensures
        exists|result: Result<Option<Seq<char>>, KopperError>|
            db.owes_read(key@, result) && (r.value@, r.error@) == #[trigger] read_answer(
                key@,
                result,
            ),
{
    let result = db.read(key);
    let ghost seen = read_result(result);
    let r = read_response(key, result);
    proof {
        assert(db.owes_read(key@, seen) && (r.value@, r.error@) == read_answer(key@, seen));
    }
    r
}

/// Writes `value` under `key` to the store and shapes the answer. Whatever
/// the store says, the answer is the one that `write_response` gives for it.
pub fn write<D: Database>(key: &str, value: &str, db: &D) -> (r: WriteResponse)
    ensures
        exists|result: Result<u64, KopperError>|
            db.owes_write(key@, value@, result) && r.error@ == #[trigger] write_answer(result),
{
    let result = db.write(key, value);
    let r = write_response(result);
    proof {
        assert(db.owes_write(key@, value@, result) && r.error@ == write_answer(result));
    }
    r
}

/// The store that the first server starts with.
pub fn create_shared_state() -> (r: Copper) {
    Copper::start("copper.db")
}

/// The answer of the endpoint that tells the offset.
pub fn get_offset() -> (r: &'static str)
    ensures
        r@ == "offset"@,
{
    "offset"
}

/// The values that the front page is made with.
pub open spec fn main_values() -> Map<Seq<char>, Seq<char>> {
    Map::<Seq<char>, Seq<char>>::empty().insert("url"@, "/admin/module/main"@).insert(
        "browser_url"@,
        "/admin"@,
    )
}

/// The values that the page of the topic `topic_name` is made with.
pub open spec fn topic_values(topic_name: Seq<char>) -> Map<Seq<char>, Seq<char>> {
    Map::<Seq<char>, Seq<char>>::empty().insert(
        "url"@,
        "/admin/module/topic/"@ + topic_name,
    ).insert("browser_url"@, "/admin/topic/"@ + topic_name)
}

/// The front page, made from the template `index`, whose bytes are `html`.
pub fn web_main(templater: &Templater, html: &Vec<u8>) -> (r: String)
    requires
        valid_utf8(html@),
    ensures
        r@ == rendered(html@, main_values()),
{
    let mut vars = Variables::new();
    vars.set("url", "/admin/module/main".to_owned());
    vars.set("browser_url", "/admin".to_owned());
    templater.get(html, &vars)
}

/// The page of a topic, made from the template `main`, whose bytes are `html`.
pub fn web_topic(topic_name: &str, templater: &Templater, html: &Vec<u8>) -> (r: String)
    requires
        valid_utf8(html@),
    ensures
        r@ == rendered(html@, topic_values(topic_name@)),
{
    let mut vars = Variables::new();
    vars.set("url", "/admin/module/topic/".to_owned().concat(topic_name));
    vars.set("browser_url", "/admin/topic/".to_owned().concat(topic_name));
    templater.get(html, &vars)
}

/// The broker's front page, made from the template `main` without values.
pub fn index(templater: &Templater, html: &Vec<u8>) -> (r: String)
    requires
        valid_utf8(html@),
    ensures
        r@ == rendered(html@, Map::<Seq<char>, Seq<char>>::empty()),
{
    let vars = Variables::new();
    templater.get(html, &vars)
}

} // verus!
