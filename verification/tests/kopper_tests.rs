use czkawka::api::{read_response, write_response, ReadResponse, WriteResponse};
use czkawka::kopper::{DiskFile, FileIndex, Kopper, KopperError};
use rand::{distributions::Alphanumeric, Rng};
use std::collections::BTreeMap;

const SEGMENT_SIZE: u64 = 1024;

/// An engine together with the directory that it writes to, kept in memory.
/// A compaction runs after every write that rolled over.
struct TestClient {
    engine: Kopper,
    disk: BTreeMap<FileIndex, Vec<u8>>,
    seg_size: u64,
}

impl TestClient {
    fn new() -> Self {
        TestClient::open(BTreeMap::new(), SEGMENT_SIZE)
    }

    fn with_seg_size(seg_size: u64) -> Self {
        TestClient::open(BTreeMap::new(), seg_size)
    }

    fn open(mut disk: BTreeMap<FileIndex, Vec<u8>>, seg_size: u64) -> Self {
        let listing: Vec<DiskFile> = disk
            .iter()
            .map(|(index, contents)| DiskFile { name: index.to_string(), contents: contents.clone() })
            .collect();
        let (engine, made) = Kopper::create("kopper_test", seg_size, &listing).unwrap();
        if let Some(index) = made {
            disk.insert(index, Vec::new());
        }
        TestClient { engine, disk, seg_size }
    }

    /// Drops what is in memory and opens the directory again.
    fn build(self) -> Self {
        TestClient::open(self.disk, self.seg_size)
    }

    fn write(&mut self, key: &str, value: &str) -> WriteResponse {
        assert!(self.engine.can_write(key, value));
        let plan = self.engine.write(key.to_string(), value.to_string());
        if plan.rollover {
            self.disk.entry(plan.file).or_default();
        }
        self.disk.get_mut(&plan.file).unwrap().extend_from_slice(&plan.bytes);
        if plan.rollover {
            self.compact();
        }
        write_response(Ok(plan.size))
    }

    fn compact(&mut self) {
        if let Some(victim) = self.engine.victim() {
            let contents = self.disk.get(&victim).unwrap().clone();
            assert!(self.engine.can_compact(victim, contents.len()));
            let plan = self.engine.compact(victim, &contents);
            if !plan.bytes.is_empty() {
                self.disk.insert(plan.create, plan.bytes);
            }
            self.disk.remove(&plan.remove);
        }
    }

    fn get(&self, key: &str) -> Option<String> {
        let entry = self.engine.read(key)?;
        let file = self.disk.get(&entry.file_index).unwrap();
        let start = entry.offset as usize;
        Some(Kopper::value(&file[start..start + entry.len]).unwrap())
    }

    fn read(&self, key: &str) -> ReadResponse {
        read_response(key, Ok(self.get(key)))
    }

    fn size_on_disk(&self) -> u64 {
        self.disk.values().map(|contents| contents.len() as u64).sum()
    }
}

fn read_json(response: ReadResponse) -> String {
    format!("{{\"value\":\"{}\",\"error\":\"{}\"}}", response.value, response.error)
}

fn random_key_value_with_size(size: usize) -> (String, String) {
    let get_random_str =
        || rand::thread_rng().sample_iter(&Alphanumeric).take(size).map(char::from).collect();
    (get_random_str(), get_random_str())
}

fn random_key_value() -> (String, String) {
    const LEN: usize = 10;
    random_key_value_with_size(LEN)
}

#[test]
fn tests_test_write_read() {
    let mut client = TestClient::new();

    // Write
    let (key, value) = random_key_value();
    client.write(&key, &value);

    // Read
    let read_response = client.read(&key);

    assert_eq!(read_json(read_response), format!("{{\"value\":\"{}\",\"error\":\"OK\"}}", value));
}

#[test]
fn tests_database_recovers_after_dying() {
    let mut client = TestClient::new();

    let mut key_values = Vec::new();
    for i in 0..5 {
        key_values.push(random_key_value());
        client.write(&key_values[i].0, &key_values[i].1);
    }

    // All in-memory structure is dropped
    let client = client.build();

    for i in key_values {
        let read_response = client.read(&i.0);
        assert_eq!(read_json(read_response), format!("{{\"value\":\"{}\",\"error\":\"OK\"}}", i.1));
    }
}

#[test]
fn tests_recover_all_files_from_folder() {
    // Create small segments
    let mut client = TestClient::with_seg_size(100);

    // Fill first file quickly
    for _ in 0..3 {
        let (key, value) = random_key_value_with_size(19);
        client.write(&key, &value);
    }

    // Meaningful value - should be in second file
    client.write("meaningful", "thing");

    let read_response = client.read("meaningful");
    assert_eq!(read_json(read_response), "{\"value\":\"thing\",\"error\":\"OK\"}");
}

#[test]
fn tests_database_does_not_grow_forever() {
    let mut client = TestClient::with_seg_size(14);

    // Send 10 identical requests
    let (key, value) = random_key_value_with_size(2);
    for _ in 0..10 {
        client.write(&key, &value);
    }

    // Verify that database is smaller than 10 x (key + value + 2)
    let all_entries_together_size = 10 * (2 + 2 + 2) / 2;
    let size = client.engine.size();

    assert!(size < all_entries_together_size, "{} >= {}", size, all_entries_together_size);
}

#[test]
fn kopper_tests_test_write_read() {
    let mut client = TestClient::new();

    // Write
    let (key, value) = random_key_value();
    client.write(&key, &value);

    // Read
    let read_response = client.read(&key);

    assert_eq!(read_json(read_response), format!("{{\"value\":\"{}\",\"error\":\"OK\"}}", value));
}

#[test]
fn kopper_tests_database_recovers_after_dying() {
    let mut client = TestClient::new();

    let mut key_values = Vec::new();
    for i in 0..5 {
        key_values.push(random_key_value());
        client.write(&key_values[i].0, &key_values[i].1);
    }

    // All in-memory structure is dropped
    let client = client.build();

    for i in key_values {
        let read_response = client.read(&i.0);
        assert_eq!(read_json(read_response), format!("{{\"value\":\"{}\",\"error\":\"OK\"}}", i.1));
    }
}

#[test]
fn kopper_tests_recover_all_files_from_folder() {
    // Create small segments
    let mut client = TestClient::with_seg_size(100);

    // Fill first file quickly
    for _ in 0..3 {
        let (key, value) = random_key_value_with_size(19);
        client.write(&key, &value);
    }

    // Meaningful value - should be in second file
    client.write("meaningful", "thing");

    let read_response = client.read("meaningful");
    assert_eq!(read_json(read_response), "{\"value\":\"thing\",\"error\":\"OK\"}");
    assert!(client.disk.len() >= 2);
}

#[test]
fn kopper_tests_database_does_not_grow_forever() {
    let mut client = TestClient::with_seg_size(14);

    // Send 10 identical requests
    let (key, value) = random_key_value_with_size(2);
    for _ in 0..10 {
        client.write(&key, &value);
    }

    // Verify that database is smaller than 10 x (key + value + 2)
    let all_entries_together_size = 10 * (2 + 2 + 2) / 2;
    let size = client.engine.size();

    assert!(size < all_entries_together_size, "{} >= {}", size, all_entries_together_size);
    assert_eq!(size, client.size_on_disk());
}

#[test]
fn file_offset_is_set_correctly_after_recovery() {
    let mut client = TestClient::with_seg_size(100);

    // Write to a file - offset is len(key + value) + 2
    client.write("some_key", "222222");

    // Recreate memory part of database from files
    let mut client = client.build();

    // Write to a file again - offset should be recovered too, and correctly saved in in-memory table
    client.write("some_key", "333333");

    let read_response = client.read("some_key");
    assert_eq!(read_json(read_response), "{\"value\":\"333333\",\"error\":\"OK\"}");
}

#[test]
fn write_then_read_lowkey() {
    let mut client = TestClient::new();
    let response = client.write("lowkey", "highvalue");
    assert_eq!(response.error, "OK");
    assert_eq!(client.get("lowkey"), Some("highvalue".to_string()));
    assert_eq!(client.get("highkey"), None);
    assert_eq!(client.read("highkey").error, "highkey does not exist!");
    assert_eq!(client.engine.size(), 17);
    assert_eq!(client.engine.path(), "kopper_test");
}

#[test]
fn write_plans_say_where_the_bytes_go() {
    let (mut engine, made) = Kopper::create("db", 20, &Vec::new()).unwrap();
    assert_eq!(made, Some(FileIndex { base: 0, index: 0 }));

    let plan = engine.write("key".to_string(), "value".to_string());
    assert!(!plan.rollover);
    assert_eq!(plan.file, FileIndex { base: 0, index: 0 });
    assert_eq!(plan.bytes, b"key\0value\0".to_vec());
    assert_eq!(plan.size, 10);
    let entry = engine.read("key").unwrap();
    assert_eq!((entry.file_index, entry.offset, entry.len), (FileIndex { base: 0, index: 0 }, 4, 5));

    // Ten more bytes fill the segment to its size; one more rolls over.
    let plan = engine.write("yek".to_string(), "eulav".to_string());
    assert!(!plan.rollover);
    assert_eq!(plan.size, 20);
    let plan = engine.write("k".to_string(), "".to_string());
    assert!(plan.rollover);
    assert_eq!(plan.file, FileIndex { base: 1, index: 0 });
    assert_eq!(plan.bytes, b"k\0\0".to_vec());
    assert_eq!(plan.size, 23);
    let entry = engine.read("k").unwrap();
    assert_eq!((entry.file_index, entry.offset, entry.len), (FileIndex { base: 1, index: 0 }, 2, 0));
}

#[test]
fn compaction_keeps_what_is_live() {
    let mut client = TestClient::with_seg_size(40);
    client.write("alpha", "one"); // 10 bytes
    client.write("beta", "two"); // 9 bytes
    client.write("alpha", "three"); // 12 bytes
    client.write("gamma", "four"); // 11 bytes: rolls over, and the first file is compacted
    assert_eq!(client.engine.victim(), Some(FileIndex { base: 0, index: 1 }));
    // Of the first file the records of beta and of the second alpha are live.
    let compacted = client.disk.get(&FileIndex { base: 0, index: 1 }).unwrap();
    assert_eq!(compacted, &b"beta\0two\0alpha\0three\0".to_vec());
    assert!(!client.disk.contains_key(&FileIndex { base: 0, index: 0 }));
    assert_eq!(client.get("alpha"), Some("three".to_string()));
    assert_eq!(client.get("beta"), Some("two".to_string()));
    assert_eq!(client.get("gamma"), Some("four".to_string()));
    assert_eq!(client.engine.size(), 32);
    assert_eq!(client.engine.size(), client.size_on_disk());

    let client = client.build();
    assert_eq!(client.get("alpha"), Some("three".to_string()));
    assert_eq!(client.get("beta"), Some("two".to_string()));
    assert_eq!(client.get("gamma"), Some("four".to_string()));
    assert_eq!(client.engine.size(), 32);
}

#[test]
fn the_victim_has_the_most_unused_entries() {
    let (mut engine, _) = Kopper::create("db", 14, &Vec::new()).unwrap();
    assert_eq!(engine.victim(), None);
    // File 0_0 holds a and b, file 1_0 holds c and d, and file 2_0 is active.
    for (key, value) in [("a", "1234"), ("b", "1234"), ("c", "1234"), ("d", "1234"), ("e", "1")] {
        engine.write(key.to_string(), value.to_string());
    }
    // Nothing is unused: the first file in the order of names is the victim.
    assert_eq!(engine.victim(), Some(FileIndex { base: 0, index: 0 }));
    // The active file is no candidate, whatever it has unused.
    engine.write("e".to_string(), "2".to_string());
    assert_eq!(engine.victim(), Some(FileIndex { base: 0, index: 0 }));
    assert!(!engine.can_compact(FileIndex { base: 2, index: 0 }, 8));
    engine.write("c".to_string(), "2".to_string());
    assert_eq!(engine.victim(), Some(FileIndex { base: 1, index: 0 }));
    // Of files with as many unused entries the first is the victim.
    engine.write("".to_string(), "".to_string());
    let plan = engine.write("a".to_string(), "2".to_string());
    assert!(plan.rollover);
    assert_eq!(engine.victim(), Some(FileIndex { base: 0, index: 0 }));
    assert!(!engine.can_compact(FileIndex { base: 3, index: 0 }, 4));
    assert!(!engine.can_compact(FileIndex { base: 7, index: 0 }, 0));
    assert!(engine.can_compact(FileIndex { base: 0, index: 0 }, 14));
    assert!(!engine.can_compact(FileIndex { base: 0, index: 0 }, 13));
}

#[test]
fn file_names() {
    assert_eq!(FileIndex { base: 0, index: 0 }.to_string(), "0_0");
    assert_eq!(FileIndex { base: 12, index: 4294967295 }.to_string(), "12_4294967295");
    assert_eq!(FileIndex::from_str("12_3"), Ok(FileIndex { base: 12, index: 3 }));
    assert_eq!(FileIndex::from_str("+12_003"), Ok(FileIndex { base: 12, index: 3 }));
    assert_eq!(
        FileIndex::from_str("4294967295_0"),
        Ok(FileIndex { base: 4294967295, index: 0 })
    );
    assert_eq!(FileIndex::from_str("4294967296_0"), Err(KopperError::ParseInt));
    assert_eq!(FileIndex::from_str("12"), Err(KopperError::Parse));
    assert_eq!(FileIndex::from_str(""), Err(KopperError::Parse));
    assert_eq!(FileIndex::from_str("_"), Err(KopperError::ParseInt));
    assert_eq!(FileIndex::from_str("1_"), Err(KopperError::ParseInt));
    assert_eq!(FileIndex::from_str("1_2_3"), Err(KopperError::ParseInt));
    assert_eq!(FileIndex::from_str("-1_2"), Err(KopperError::ParseInt));
    assert_eq!(FileIndex::from_str("a_2"), Err(KopperError::ParseInt));
    assert_eq!(FileIndex::from_str("+_2"), Err(KopperError::ParseInt));
    assert_eq!(FileIndex { base: 1, index: 2 }.add(3), FileIndex { base: 1, index: 5 });
    assert!(FileIndex { base: 1, index: 9 }.is_before(&FileIndex { base: 2, index: 0 }));
    assert!(FileIndex { base: 1, index: 9 } < FileIndex { base: 2, index: 0 });
    assert!(!FileIndex { base: 1, index: 9 }.is_before(&FileIndex { base: 1, index: 9 }));
}

#[test]
fn file_names_agree_with_std() {
    for text in ["0_0", "7_+8", "+0_0", "00_1", "1_ 2", " 1_2", "1__2", "٣_1", "1_٣", "99999999999_1"] {
        let expected = text.split_once('_').and_then(|(base, index)| {
            Some(FileIndex { base: base.parse().ok()?, index: index.parse().ok()? })
        });
        assert_eq!(FileIndex::from_str(text).ok(), expected, "{}", text);
    }
}

#[test]
fn recovery_reads_the_last_record_of_a_key() {
    let listing = vec![
        DiskFile { name: "0_0".to_string(), contents: b"a\0old\0b\0bee\0a\0new\0".to_vec() },
        DiskFile { name: "1_0".to_string(), contents: b"c\0sea\0b\0bea\0tail".to_vec() },
    ];
    let (engine, made) = Kopper::create("db", 100, &listing).unwrap();
    assert_eq!(made, None);
    assert_eq!(engine.size(), 34);
    let a = engine.read("a").unwrap();
    assert_eq!((a.file_index, a.offset, a.len), (FileIndex { base: 0, index: 0 }, 14, 3));
    let b = engine.read("b").unwrap();
    assert_eq!((b.file_index, b.offset, b.len), (FileIndex { base: 1, index: 0 }, 8, 3));
    assert!(engine.read("tail").is_none());
    // The first file in the order of names is written to, at its end.
    let mut engine = engine;
    let plan = engine.write("d".to_string(), "dee".to_string());
    assert!(!plan.rollover);
    assert_eq!(plan.file, FileIndex { base: 0, index: 0 });
    assert_eq!(engine.read("d").unwrap().offset, 20);
}

#[test]
fn recovery_fails_on_bad_names_and_keys() {
    let file = |name: &str, contents: &[u8]| DiskFile {
        name: name.to_string(),
        contents: contents.to_vec(),
    };
    assert!(matches!(
        Kopper::create("db", 100, &vec![file("0_0", b""), file("zero", b"")]),
        Err(KopperError::Parse)
    ));
    assert!(matches!(
        Kopper::create("db", 100, &vec![file("0_x", b"")]),
        Err(KopperError::ParseInt)
    ));
    assert!(matches!(
        Kopper::create("db", 100, &vec![file("0_0", b"\xff\0v\0")]),
        Err(KopperError::Parse)
    ));
    assert!(Kopper::create("db", 100, &vec![file("0_0", b"k\0\xff\0")]).is_ok());
}

#[test]
fn values_that_are_no_text() {
    assert_eq!(Kopper::value(b"text"), Some("text".to_string()));
    assert_eq!(Kopper::value(b""), Some(String::new()));
    assert_eq!(Kopper::value(b"\xc3\xa9"), Some("é".to_string()));
    assert_eq!(Kopper::value(b"\xc3"), None);
    assert_eq!(Kopper::value(b"\xff"), None);
}

#[test]
fn responses() {
    let read = read_response("k", Ok(Some("v".to_string())));
    assert_eq!((read.value.as_str(), read.error.as_str()), ("v", "OK"));
    let read = read_response("k", Ok(None));
    assert_eq!((read.value.as_str(), read.error.as_str()), ("", "k does not exist!"));
    let read = read_response("k", Err(KopperError::IO));
    assert_eq!((read.value.as_str(), read.error.as_str()), ("", "Internal Error"));
    assert_eq!(write_response(Ok(3)).error, "OK");
    assert_eq!(write_response(Err(KopperError::IO)).error, "Error while writing! : IO");
    assert_eq!(write_response(Err(KopperError::Parse)).error, "Error while writing! : Parse");
    assert_eq!(write_response(Err(KopperError::ParseInt)).error, "Error while writing! : ParseInt");
}

#[test]
fn many_writes_survive_rollovers_and_compactions() {
    let mut client = TestClient::with_seg_size(64);
    let mut latest: BTreeMap<String, String> = BTreeMap::new();
    for round in 0..200 {
        let key = format!("key{}", round % 7);
        let (_, value) = random_key_value_with_size(1 + round % 9);
        client.write(&key, &value);
        latest.insert(key, value);
        assert_eq!(client.engine.size(), client.size_on_disk());
    }
    assert!(client.disk.len() >= 2);
    for (key, value) in latest.iter() {
        assert_eq!(client.get(key).as_ref(), Some(value));
    }
    let client = client.build();
    for (key, value) in latest.iter() {
        assert_eq!(client.get(key).as_ref(), Some(value));
    }
}
