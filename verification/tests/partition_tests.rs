use czkawka::partition::{EntryCollection, Partition, PartitionEntry, PartitionError};
use rand::{distributions::Alphanumeric, Rng};

/// A partition together with the files that it writes to, kept in memory.
struct Log {
    partition: Partition,
    files: Vec<Vec<u8>>,
}

impl Log {
    fn open(files: Vec<Vec<u8>>) -> Result<Log, PartitionError> {
        let (partition, fresh) = Partition::new(&files)?;
        let files = if fresh { vec![Vec::new()] } else { files };
        Ok(Log { partition, files })
    }

    fn new() -> Result<Log, PartitionError> {
        Log::open(Vec::new())
    }

    fn reopen(self) -> Result<Log, PartitionError> {
        Log::open(self.files)
    }

    fn produce(&mut self, value: &str) -> Result<u64, PartitionError> {
        let produced = self.partition.produce(value)?;
        assert_eq!(produced.position, self.files[produced.file].len());
        self.files[produced.file].extend_from_slice(&produced.bytes);
        Ok(produced.offset)
    }

    fn consume(&self, offset: u64) -> Result<EntryCollection, PartitionError> {
        let segment = self.partition.consume(offset)?;
        let region = &self.files[segment.file][segment.address..segment.address + segment.size];
        Ok(EntryCollection::new(region.to_vec(), offset))
    }
}

fn random_str_with_size(size: usize) -> String {
    Rng::sample_iter(rand::thread_rng(), &Alphanumeric).take(size).map(char::from).collect()
}

fn repeated(letter: u8, size: usize) -> String {
    String::from_utf8(vec![letter; size]).unwrap()
}

#[test]
fn produce_and_consume_one() {
    let mut p = Log::new().unwrap();

    let offset = p.produce("MyNewCrazyValue").unwrap();
    assert_eq!(offset, 0);
    let mut entries = p.consume(offset).unwrap();

    assert_eq!(entries.next().unwrap().unwrap().value, "MyNewCrazyValue");
    assert!(entries.next().unwrap().is_none());
}

#[test]
fn consume_empty() {
    let p = Log::new().unwrap();
    let entries = p.consume(0);
    assert_eq!(entries.unwrap_err().to_string(), PartitionError::BadOffset(0).to_string());
}

#[test]
fn consume_wrong_offset() {
    let mut p = Log::new().unwrap();
    p.produce("MyNewCrazyValue").unwrap();

    let err = p.consume(100).unwrap_err();
    assert_eq!(err.to_string(), PartitionError::BadOffset(100).to_string());
}

#[test]
fn produce_many_consume_loop() {
    let mut p = Log::new().unwrap();

    p.produce("1").unwrap();
    p.produce("2").unwrap();
    p.produce("3").unwrap();
    let mut entries = p.consume(0).unwrap();

    let mut sum = 0;
    while let Some(entry) = entries.next().unwrap() {
        sum += entry.value.parse::<i32>().unwrap();
    }

    assert_eq!(sum, 6);
}

#[test]
fn first_offset_happy() {
    let mut p = Log::new().unwrap();
    p.produce("3").unwrap();

    assert_eq!(p.partition.first_offset().unwrap(), 0);
}

#[test]
fn first_offset_empty() {
    let p = Log::new().unwrap();
    let err = p.partition.first_offset().unwrap_err();

    assert_eq!(err.to_string(), PartitionError::NoFirstOffset.to_string());
}

#[test]
fn simple_recover() {
    let mut p = Log::new().unwrap();

    let offset = p.produce("asd").unwrap();

    let p = p.reopen().unwrap();

    assert_eq!(p.consume(offset).unwrap().next().unwrap().unwrap().value, "asd");
}

#[test]
fn recover_empty() {
    let p = Log::new().unwrap();
    let mut p = p.reopen().unwrap();
    let o = p.produce("ASD").unwrap();
    assert_eq!(p.consume(o).unwrap().next().unwrap().unwrap().value, "ASD");
}

#[test]
fn requested_offset_is_first_after_consuming() {
    let mut p = Log::new().unwrap();

    p.produce("A").unwrap();
    p.produce("B").unwrap();
    let offset = p.produce("C").unwrap();

    assert_eq!(p.consume(offset).unwrap().next().unwrap().unwrap().value, "C");
}

#[test]
fn multiple_segments() {
    let mut p = Log::new().unwrap();

    // A segment holds 4096 bytes: the fourth value begins the second one.
    p.produce(&repeated(b'A', 1200)).unwrap();
    p.produce(&repeated(b'A', 1200)).unwrap();
    p.produce(&repeated(b'A', 1200)).unwrap();
    let offset: u64 = p.produce(&repeated(b'A', 1200)).unwrap();

    let mut collection = p.consume(offset).unwrap();
    collection.next().unwrap();

    assert!(collection.size_read() < 1300);
}

#[test]
fn recover_multiple_segments() {
    let mut p = Log::new().unwrap();

    p.produce(&repeated(b'A', 1200)).unwrap();
    p.produce(&repeated(b'A', 1200)).unwrap();
    p.produce(&repeated(b'A', 1200)).unwrap();
    let offset: u64 = p.produce(&repeated(b'B', 1200)).unwrap();

    let p = p.reopen().unwrap();
    assert_eq!(
        p.consume(offset).unwrap().next().unwrap().unwrap().value.chars().nth(0),
        Some('B')
    );
}

#[test]
fn test_entry_collection() {
    // 1. Create few partition entries
    let p1 = PartitionEntry { offset: 1, timestamp: 11, value: "p1".to_string() };
    let p2 = PartitionEntry { offset: 2, timestamp: 22, value: "p2".to_string() };

    // 2. Serialize then into single vec
    let mut vec: Vec<u8> = vec![];
    vec.append(&mut PartitionEntry::serialize(p1.offset, p1.timestamp, &p1.value).unwrap());
    vec.append(&mut PartitionEntry::serialize(p2.offset, p2.timestamp, &p2.value).unwrap());

    // 3. Make it into an EntryCollection
    let mut ec = EntryCollection::new(vec, 1);

    // 4. Profit
    let new_p1 = ec.next().unwrap().unwrap();
    assert_eq!(p1.offset, new_p1.offset);
    assert_eq!(p1.timestamp, new_p1.timestamp);
    assert_eq!(p1.value, new_p1.value);

    let new_p2 = ec.next().unwrap().unwrap();
    assert_eq!(p2.offset, new_p2.offset);
    assert_eq!(p2.timestamp, new_p2.timestamp);
    assert_eq!(p2.value, new_p2.value);

    assert!(ec.next().unwrap().is_none()); // No more elements
}

#[test]
fn serialize_writes_the_documented_bytes() {
    assert_eq!(PartitionEntry::serialize(1, 11, "p1").unwrap(), vec![1, 11, 2, b'p', b'1']);
    assert_eq!(PartitionEntry::serialize(250, 251, "").unwrap(), vec![250, 251, 251, 0, 0]);
    assert_eq!(
        PartitionEntry::serialize(0xffff, 0x1_0000, "é").unwrap(),
        vec![251, 0xff, 0xff, 252, 0, 0, 1, 0, 2, 0xc3, 0xa9]
    );
    assert_eq!(
        PartitionEntry::serialize(0xffff_ffff, 0x1_0000_0000, "").unwrap(),
        vec![252, 0xff, 0xff, 0xff, 0xff, 253, 0, 0, 0, 0, 1, 0, 0, 0, 0]
    );
    assert_eq!(
        PartitionEntry::serialize(u64::MAX, 0, "").unwrap(),
        vec![253, 0xff, 0xff, 0xff, 0xff, 0xff, 0xff, 0xff, 0xff, 0, 0]
    );
    let long = repeated(b'x', 300);
    let bytes = PartitionEntry::serialize(0, 0, &long).unwrap();
    assert_eq!(&bytes[..5], &[0, 0, 251, 44, 1]);
    assert_eq!(bytes.len(), 305);
}

#[test]
fn next_reads_the_documented_bytes() {
    // A small value behind a wide tag is read all the same.
    let mut ec = EntryCollection::new(vec![251, 7, 0, 253, 9, 0, 0, 0, 0, 0, 0, 0, 1, b'a'], 0);
    let entry = ec.next().unwrap().unwrap();
    assert_eq!((entry.offset, entry.timestamp, entry.value.as_str()), (7, 9, "a"));
    assert_eq!(ec.size_read(), 14);
    assert!(ec.next().unwrap().is_none());
}

#[test]
fn next_fails_on_what_is_no_record() {
    // A tag above 253.
    let mut ec = EntryCollection::new(vec![254, 0, 0], 0);
    assert_eq!(ec.next().unwrap_err(), PartitionError::Internal);
    assert_eq!(ec.size_read(), 0);
    // The data ends inside an integer.
    let mut ec = EntryCollection::new(vec![1, 251, 0], 0);
    assert_eq!(ec.next().unwrap_err(), PartitionError::Internal);
    // The value is longer than the rest.
    let mut ec = EntryCollection::new(vec![1, 2, 3, b'a', b'b'], 0);
    assert_eq!(ec.next().unwrap_err(), PartitionError::Internal);
    // The value is no text.
    let mut ec = EntryCollection::new(vec![1, 2, 1, 0xff], 0);
    assert_eq!(ec.next().unwrap_err(), PartitionError::Internal);
}

#[test]
fn next_passes_over_lower_offsets() {
    let mut data = Vec::new();
    for offset in 0..5u64 {
        data.append(&mut PartitionEntry::serialize(offset, 100 + offset, "v").unwrap());
    }
    let mut ec = EntryCollection::new(data, 3);
    assert_eq!(ec.next().unwrap().unwrap().offset, 3);
    assert_eq!(ec.size_read(), 16);
    assert_eq!(ec.next().unwrap().unwrap().offset, 4);
    assert!(ec.next().unwrap().is_none());
}

#[test]
fn error_texts() {
    assert_eq!(
        PartitionError::NoFirstOffset.to_string(),
        "There are no messages in the partition"
    );
    assert_eq!(PartitionError::BadOffset(0).to_string(), "Offset 0 does not exist");
    assert_eq!(
        PartitionError::BadOffset(18446744073709551615).to_string(),
        "Offset 18446744073709551615 does not exist"
    );
    assert_eq!(PartitionError::Internal.to_string(), "Internal error");
}

#[test]
fn offsets_count_up_from_zero() {
    let mut p = Log::new().unwrap();
    for expected in 0..20u64 {
        assert_eq!(p.produce(&random_str_with_size(10)).unwrap(), expected);
    }
    let mut p = p.reopen().unwrap();
    assert_eq!(p.produce("next").unwrap(), 20);
}

#[test]
fn produce_at_cuts_segments_at_the_end_of_the_file() {
    let (mut partition, fresh) = Partition::new(&Vec::new()).unwrap();
    assert!(fresh);
    let mut file: Vec<u8> = Vec::new();
    // Each record is 2005 bytes: two fit into a segment, the third begins a new one.
    for offset in 0..5u64 {
        let produced = partition.produce_at(7, &repeated(b'x', 2000)).unwrap();
        assert_eq!(produced.offset, offset);
        assert_eq!(produced.position, file.len());
        assert_eq!(produced.bytes.len(), 2005);
        file.extend_from_slice(&produced.bytes);
    }
    let first = partition.consume(1).unwrap();
    assert_eq!((first.offset, first.address, first.size), (0, 0, 4010));
    let second = partition.consume(2).unwrap();
    assert_eq!((second.offset, second.address, second.size), (2, 4010, 4010));
    let third = partition.consume(4).unwrap();
    assert_eq!((third.offset, third.address, third.size), (4, 8020, 2005));
    assert_eq!(partition.consume(5).unwrap_err(), PartitionError::BadOffset(5));
    assert_eq!(partition.first_offset().unwrap(), 0);

    // The same segments come back from the file.
    let (recovered, fresh) = Partition::new(&vec![file]).unwrap();
    assert!(!fresh);
    for offset in 0..5u64 {
        assert_eq!(recovered.consume(offset).unwrap(), partition.consume(offset).unwrap());
    }
    assert_eq!(recovered.consume(5).unwrap_err(), PartitionError::BadOffset(5));
}

#[test]
fn a_record_larger_than_a_segment_is_a_segment_of_its_own() {
    let mut p = Log::new().unwrap();
    p.produce("small").unwrap();
    let big = repeated(b'z', 5000);
    let offset = p.produce(&big).unwrap();
    let after = p.produce("tail").unwrap();
    let segment = p.partition.consume(offset).unwrap();
    assert_eq!(segment.offset, offset);
    assert_eq!(p.consume(offset).unwrap().next().unwrap().unwrap().value, big);
    assert_eq!(p.partition.consume(after).unwrap().offset, after);

    let p = p.reopen().unwrap();
    assert_eq!(p.consume(offset).unwrap().next().unwrap().unwrap().value, big);
    assert_eq!(p.consume(after).unwrap().next().unwrap().unwrap().value, "tail");
    assert_eq!(p.consume(0).unwrap().next().unwrap().unwrap().value, "small");
}

#[test]
fn recovery_fails_on_a_broken_file() {
    let mut file = PartitionEntry::serialize(0, 1, "whole").unwrap();
    file.extend_from_slice(&[3, 4, 200]);
    assert!(matches!(Partition::new(&vec![file]), Err(PartitionError::Internal)));
}

#[test]
fn recovery_of_many_segments_finds_every_record() {
    let mut p = Log::new().unwrap();
    let mut values = Vec::new();
    for _ in 0..40 {
        let value = random_str_with_size(700);
        p.produce(&value).unwrap();
        values.push(value);
    }
    let p = p.reopen().unwrap();
    for (offset, value) in values.iter().enumerate() {
        let mut entries = p.consume(offset as u64).unwrap();
        let entry = entries.next().unwrap().unwrap();
        assert_eq!(entry.offset, offset as u64);
        assert_eq!(&entry.value, value);
    }
}

#[test]
fn every_offset_reads_its_record_before_and_after_recovery() {
    let mut p = Log::new().unwrap();
    let mut values = Vec::new();
    for round in 0..60 {
        let value = random_str_with_size(1 + (round * 37) % 900);
        assert_eq!(p.produce(&value).unwrap(), round as u64);
        values.push(value);
    }
    for (offset, value) in values.iter().enumerate() {
        let entry = p.consume(offset as u64).unwrap().next().unwrap().unwrap();
        assert_eq!((entry.offset, &entry.value), (offset as u64, value));
    }
    let p = p.reopen().unwrap();
    for (offset, value) in values.iter().enumerate() {
        let entry = p.consume(offset as u64).unwrap().next().unwrap().unwrap();
        assert_eq!((entry.offset, &entry.value), (offset as u64, value));
    }
}
