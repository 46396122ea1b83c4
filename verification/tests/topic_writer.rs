use zendb_storage::engine::keydir::KeyDirConfig;
use zendb_storage::topic::consumer::TopicConsumer;
use zendb_storage::topic::reader::SeekTarget;
use zendb_storage::topic::types::{TopicConfig, DEFAULT_SPARSE_INDEX_STRIDE};
use zendb_storage::topic::writer::Topic;
use zendb_storage::error::StorageError;
use zendb_storage::topic::segment::HEADER_SIZE;

fn config(max_segment_bytes: u64) -> TopicConfig {
    TopicConfig { max_segment_bytes, sparse_index_stride: DEFAULT_SPARSE_INDEX_STRIDE, offsets: KeyDirConfig::default() }
}

fn name(s: &str) -> Vec<u8> {
    s.as_bytes().to_vec()
}

fn append(topic: &mut Topic, value: u64) -> u64 {
    topic.append(&value.to_le_bytes()).unwrap()
}

fn append_all(topic: &mut Topic, values: impl IntoIterator<Item = u64>) {
    for value in values {
        append(topic, value);
    }
}

fn number(b: Vec<u8>) -> u64 {
    let mut w = [0; 8];
    w.copy_from_slice(&b);
    u64::from_le_bytes(w)
}

fn next(reader: &mut TopicConsumer, topic: &mut Topic) -> Option<u64> {
    reader.next(topic).map(number)
}

fn count(reader: &mut TopicConsumer, topic: &mut Topic) -> usize {
    let mut n = 0;
    while next(reader, topic).is_some() {
        n += 1;
    }
    n
}

fn reopen(topic: &Topic, config: TopicConfig) -> Topic {
    Topic::open(topic.segments(), topic.offsets_image().clone(), config).unwrap()
}

#[test]
fn writer_reader_registers_at_current_tail() {
    let mut topic = Topic::create(TopicConfig::default()).unwrap();
    append_all(&mut topic, [1, 2]);
    let mut reader = topic.consumer(&name("c")).unwrap();
    append(&mut topic, 3);
    assert_eq!(next(&mut reader, &mut topic), Some(3));
    assert!(next(&mut reader, &mut topic).is_none());
}

#[test]
fn dropping_reader_resets_volatile_progress_to_committed() {
    let mut topic = Topic::create(TopicConfig::default()).unwrap();
    let reader = topic.consumer(&name("c")).unwrap();
    reader.close(&mut topic);
    append_all(&mut topic, [1, 2, 3]);

    {
        let mut reader = topic.consumer(&name("c")).unwrap();
        assert_eq!(next(&mut reader, &mut topic), Some(1));
        reader.close(&mut topic);
    }
    {
        let mut reader = topic.consumer(&name("c")).unwrap();
        assert_eq!(next(&mut reader, &mut topic), Some(1));
        reader.commit(&mut topic).unwrap();
        reader.close(&mut topic);
    }

    let mut topic = reopen(&topic, TopicConfig::default());
    let mut reader = topic.consumer(&name("c")).unwrap();
    assert_eq!(next(&mut reader, &mut topic), Some(2));
}

#[test]
fn writer_reopen_discards_uncommitted_volatile_progress() {
    let topic = {
        let mut topic = Topic::create(TopicConfig::default()).unwrap();
        let reader = topic.consumer(&name("c")).unwrap();
        reader.close(&mut topic);
        append_all(&mut topic, [1, 2]);
        let mut reader = topic.consumer(&name("c")).unwrap();
        assert_eq!(next(&mut reader, &mut topic), Some(1));
        topic
    };

    let mut topic = reopen(&topic, TopicConfig::default());
    let mut reader = topic.consumer(&name("c")).unwrap();
    assert_eq!(next(&mut reader, &mut topic), Some(1));
}

#[test]
fn writer_reset_returns_to_committed_offset() {
    let mut topic = Topic::create(TopicConfig::default()).unwrap();
    let reader = topic.consumer(&name("c")).unwrap();
    reader.close(&mut topic);
    append_all(&mut topic, [1, 2]);

    let mut reader = topic.consumer(&name("c")).unwrap();
    assert_eq!(next(&mut reader, &mut topic), Some(1));
    reader.reset(&mut topic);
    assert_eq!(next(&mut reader, &mut topic), Some(1));
}

#[test]
fn writer_reader_observes_appends_and_rotations_without_refresh() {
    let mut topic = Topic::create(config(16)).unwrap();
    let mut reader = topic.consumer(&name("c")).unwrap();
    append(&mut topic, 1);
    append(&mut topic, 2);
    assert_eq!(next(&mut reader, &mut topic), Some(1));
    assert_eq!(next(&mut reader, &mut topic), Some(2));
    assert!(next(&mut reader, &mut topic).is_none());
}

#[test]
fn writer_only_one_reader_per_consumer_is_allowed() {
    let mut topic = Topic::create(TopicConfig::default()).unwrap();
    let reader = topic.consumer(&name("c")).unwrap();
    assert_eq!(topic.consumer(&name("c")).err(), Some(StorageError::AlreadyExists));
    reader.close(&mut topic);
    assert!(topic.consumer(&name("c")).is_ok());
}

#[test]
fn writer_consumer_delete_unregisters_cursor() {
    let mut topic = Topic::create(TopicConfig::default()).unwrap();
    let consumer = topic.consumer(&name("c")).unwrap();
    consumer.close(&mut topic);
    append_all(&mut topic, [1, 2]);

    let consumer = topic.consumer(&name("c")).unwrap();
    consumer.delete(&mut topic).unwrap();

    let mut consumer = topic.consumer(&name("c")).unwrap();
    assert!(next(&mut consumer, &mut topic).is_none());
    append(&mut topic, 3);
    assert_eq!(next(&mut consumer, &mut topic), Some(3));
}

#[test]
fn writer_different_consumers_read_concurrently() {
    let mut topic = Topic::create(TopicConfig::default()).unwrap();
    let a = topic.consumer(&name("a")).unwrap();
    let b = topic.consumer(&name("b")).unwrap();
    a.close(&mut topic);
    b.close(&mut topic);
    append_all(&mut topic, 0..100);

    let mut a = topic.consumer(&name("a")).unwrap();
    let mut b = topic.consumer(&name("b")).unwrap();
    let mut from_a = Vec::new();
    let mut from_b = Vec::new();
    for i in 0..100 {
        from_a.push(next(&mut a, &mut topic).unwrap());
        if i % 3 == 0 {
            from_b.push(next(&mut b, &mut topic).unwrap());
        }
    }
    while let Some(v) = next(&mut b, &mut topic) {
        from_b.push(v);
    }
    assert!(next(&mut a, &mut topic).is_none());
    assert_eq!(from_a, (0..100).collect::<Vec<_>>());
    assert_eq!(from_b, (0..100).collect::<Vec<_>>());
}

#[test]
fn writer_seek_marks_records_through_offset_consumed() {
    let mut topic = Topic::create(TopicConfig::default()).unwrap();
    let first = append(&mut topic, 1);
    append(&mut topic, 2);

    let mut consumer = topic.consumer(&name("c")).unwrap();
    consumer.seek(SeekTarget::Offset(first + 1), &mut topic);
    consumer.commit(&mut topic).unwrap();
    consumer.close(&mut topic);

    let mut consumer = topic.consumer(&name("c")).unwrap();
    assert_eq!(next(&mut consumer, &mut topic), Some(2));
}

#[test]
fn writer_single_writer_appends_while_reader_consumes() {
    let mut topic = Topic::create(config(64)).unwrap();
    let mut reader = topic.consumer(&name("c")).unwrap();

    let mut values = Vec::new();
    for value in 0..100 {
        append(&mut topic, value);
        if value % 7 != 0 {
            values.push(next(&mut reader, &mut topic).unwrap());
        }
    }
    while values.len() < 100 {
        values.push(next(&mut reader, &mut topic).unwrap());
    }

    assert_eq!(values, (0..100).collect::<Vec<_>>());
    assert_eq!(topic.stats().next_offset, 100);
}

#[test]
fn writer_compacted_segment_lives_until_reader_releases_it() {
    let mut topic = Topic::create(config(16)).unwrap();
    let mut reader = topic.consumer(&name("c")).unwrap();
    append(&mut topic, 1);
    append(&mut topic, 2);

    assert_eq!(next(&mut reader, &mut topic), Some(1));
    reader.commit(&mut topic).unwrap();
    topic.compact().unwrap();
    assert!(topic.held_bases().contains(&0));

    assert_eq!(next(&mut reader, &mut topic), Some(2));
    assert!(!topic.held_bases().contains(&0));
}

#[test]
fn writer_rotation_auto_compacts_without_blocking_active_reader() {
    let mut topic = Topic::create(config(16)).unwrap();
    let reader = topic.consumer(&name("c")).unwrap();
    reader.close(&mut topic);
    append_all(&mut topic, 0..8);
    {
        let mut reader = topic.consumer(&name("c")).unwrap();
        assert_eq!(count(&mut reader, &mut topic), 8);
        reader.commit(&mut topic).unwrap();
        reader.close(&mut topic);
    }

    let reader = topic.consumer(&name("c")).unwrap();
    let before = topic.segment_count();
    append(&mut topic, 8);
    append(&mut topic, 9);
    assert!(topic.segment_count() < before + 1);
    reader.close(&mut topic);
}

#[test]
fn writer_compacted_topic_survives_reopen() {
    let config = config(16);
    let topic = {
        let mut topic = Topic::create(config).unwrap();
        let reader = topic.consumer(&name("c")).unwrap();
        reader.close(&mut topic);
        append_all(&mut topic, 0..8);
        {
            let mut reader = topic.consumer(&name("c")).unwrap();
            assert_eq!(count(&mut reader, &mut topic), 8);
            reader.commit(&mut topic).unwrap();
            reader.close(&mut topic);
        }
        let before = topic.segment_count();
        topic.compact().unwrap();
        assert!(topic.segment_count() < before);
        topic
    };

    let mut topic = reopen(&topic, config);
    append(&mut topic, 8);
    let mut reader = topic.consumer(&name("c")).unwrap();
    assert_eq!(next(&mut reader, &mut topic), Some(8));
}

#[test]
fn writer_open_scans_and_truncates_only_partial_active_record() {
    let mut topic = Topic::create(TopicConfig::default()).unwrap();
    append(&mut topic, 1);
    let mut files = topic.segments();
    let file = &mut files[0].1;
    file.extend_from_slice(&8_u32.to_le_bytes());
    file.extend_from_slice(&[1, 2]);

    let topic = Topic::open(files, topic.offsets_image().clone(), TopicConfig::default()).unwrap();
    assert_eq!(topic.stats().next_offset, 1);
    assert_eq!(topic.segments()[0].1.len(), HEADER_SIZE + 12);
}

#[test]
fn writer_files_may_come_in_any_order() {
    let mut topic = Topic::create(config(16)).unwrap();
    append_all(&mut topic, 0..4);
    let mut files = topic.segments();
    files.reverse();
    let again = Topic::open(files, topic.offsets_image().clone(), config(16)).unwrap();
    assert_eq!(again.stats(), topic.stats());
    assert_eq!(again.segments(), topic.segments());
}

#[test]
fn writer_refuses_segments_that_do_not_fit_together() {
    let mut topic = Topic::create(config(16)).unwrap();
    append_all(&mut topic, 0..4);
    let offsets = topic.offsets_image().clone();
    let mut files = topic.segments();
    files.remove(1);
    assert_eq!(Topic::open(files, offsets.clone(), config(16)).err(), Some(StorageError::UnexpectedEof));
    let mut files = topic.segments();
    files[1].0 = files[0].0;
    assert_eq!(Topic::open(files, offsets.clone(), config(16)).err(), Some(StorageError::InvalidData));
    let mut files = topic.segments();
    files[0].1[0] ^= 1;
    assert_eq!(Topic::open(files, offsets.clone(), config(16)).err(), Some(StorageError::InvalidData));
    let files = vec![(0, vec![1, 2])];
    assert_eq!(Topic::open(files, offsets.clone(), config(16)).err(), Some(StorageError::UnexpectedEof));
    let files = topic.segments();
    assert_eq!(Topic::open(files, vec![0; 8], config(16)).err(), Some(StorageError::InvalidData));
}

#[test]
fn writer_reader_reads_from_the_first_record() {
    let mut topic = Topic::create(config(16)).unwrap();
    append_all(&mut topic, [5, 6, 7]);
    let mut reader = topic.reader();
    let mut seen = Vec::new();
    while let Some((offset, b)) = topic.read(&mut reader) {
        seen.push((offset, number(b)));
    }
    assert_eq!(seen, vec![(0, 5), (1, 6), (2, 7)]);
    assert!(topic.seek(&mut reader, SeekTarget::Offset(1)));
    assert_eq!(topic.read(&mut reader).map(|(o, b)| (o, number(b))), Some((1, 6)));
    assert!(topic.seek(&mut reader, SeekTarget::Earliest));
    assert_eq!(topic.read(&mut reader).map(|(o, b)| (o, number(b))), Some((0, 5)));
    assert!(!topic.seek(&mut reader, SeekTarget::Latest));
    assert!(topic.read(&mut reader).is_none());
    topic.close(reader);
}

#[test]
fn writer_seek_prefix_stops_at_the_first_match() {
    let mut topic = Topic::create(config(64)).unwrap();
    append_all(&mut topic, 0..30);
    let mut reader = topic.reader();
    assert_eq!(topic.seek_prefix(&mut reader, 1, |b: &[u8]| b[0] >= 17), Ok(true));
    assert_eq!(topic.read(&mut reader).map(|(o, _)| o), Some(17));
    assert_eq!(topic.seek_prefix(&mut reader, 1, |b: &[u8]| b[0] >= 200), Ok(false));
    assert_eq!(topic.seek_prefix(&mut reader, 9, |_: &[u8]| true), Err(StorageError::UnexpectedEof));
    topic.close(reader);
}

#[test]
fn writer_standing_shows_what_was_committed() {
    let mut topic = Topic::create(config(64)).unwrap();
    assert!(topic.standing(b"c").is_none());
    let mut reader = topic.consumer(&name("c")).unwrap();
    append_all(&mut topic, 0..3);
    assert_eq!(next(&mut reader, &mut topic), Some(0));
    reader.commit(&mut topic).unwrap();
    let s = topic.standing(b"c").unwrap();
    assert_eq!((s.committed, s.active), (1, true));
    reader.close(&mut topic);
    assert!(!topic.standing(b"c").unwrap().active);
}

#[test]
fn writer_reads_a_segment_up_to_where_the_next_one_starts() {
    let mut topic = Topic::create(config(16)).unwrap();
    append_all(&mut topic, 0..4);
    let mut files = topic.segments();
    files[0].1.extend_from_slice(&[8, 0, 0, 0, 1, 2, 3, 4, 5, 6, 7, 8, 9]);
    let again = Topic::open(files, topic.offsets_image().clone(), config(16)).unwrap();
    assert_eq!(again.stats(), topic.stats());
    assert_eq!(again.segments(), topic.segments());
}
