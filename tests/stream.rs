use item_stream::error::StreamError;
use item_stream::logic::ItemStreamComponent;
use item_stream::store::{ItemStore, ReadOutcome};

fn read_all(store: &ItemStore, reader: &mut ItemStreamComponent) -> (Vec<u8>, usize) {
    let mut out = Vec::new();
    let mut chunks = 0;
    loop {
        match reader.read_chunk(store).unwrap() {
            ReadOutcome::Data(b) => {
                assert!(!b.is_empty());
                out.extend_from_slice(&b);
                chunks += 1;
            }
            ReadOutcome::End => return (out, chunks),
            ReadOutcome::Pending | ReadOutcome::Abandoned => panic!("stream not finished"),
        }
    }
}

#[test]
fn sequential_write_then_read() {
    let mut store = ItemStore::new();
    let mut w = ItemStreamComponent::new_writer(&mut store, "a".to_string(), 1).unwrap();
    w.write_chunk(&mut store, b"<p>1</p>".to_vec()).unwrap();
    w.write_chunk(&mut store, b"<p>2</p>".to_vec()).unwrap();
    w.finalize(&mut store).unwrap();
    let mut r = ItemStreamComponent::new_reader(&store, "a".to_string(), 1).unwrap();
    assert_eq!(r.read_chunk(&store).unwrap(), ReadOutcome::Data(b"<p>1</p><p>2</p>".to_vec()));
    assert_eq!(r.read_chunk(&store).unwrap(), ReadOutcome::End);
    assert_eq!(r.read_chunk(&store).unwrap(), ReadOutcome::End);
    assert_eq!(
        item_stream::metadata::render_metadata(1),
        b"<metadata>\n    <version>1</version>\n</metadata>".to_vec()
    );
}

#[test]
fn concurrent_tail_follow() {
    let mut store = ItemStore::new();
    let mut w = ItemStreamComponent::new_writer(&mut store, "b".to_string(), 1).unwrap();
    let mut r = ItemStreamComponent::new_reader(&store, "b".to_string(), 1).unwrap();
    assert_eq!(r.read_chunk(&store).unwrap(), ReadOutcome::Pending);
    w.write_chunk(&mut store, b"A".to_vec()).unwrap();
    assert_eq!(r.read_chunk(&store).unwrap(), ReadOutcome::Data(b"A".to_vec()));
    assert_eq!(r.read_chunk(&store).unwrap(), ReadOutcome::Pending);
    w.write_chunk(&mut store, b"B".to_vec()).unwrap();
    w.write_chunk(&mut store, b"C".to_vec()).unwrap();
    assert_eq!(r.read_chunk(&store).unwrap(), ReadOutcome::Data(b"BC".to_vec()));
    assert_eq!(r.read_chunk(&store).unwrap(), ReadOutcome::Pending);
    w.finalize(&mut store).unwrap();
    assert_eq!(r.read_chunk(&store).unwrap(), ReadOutcome::End);
}

#[test]
fn version_conflict() {
    let mut store = ItemStore::new();
    let mut w1 = ItemStreamComponent::new_writer(&mut store, "c".to_string(), 1).unwrap();
    w1.finalize(&mut store).unwrap();
    let w2 = ItemStreamComponent::new_writer(&mut store, "c".to_string(), 1);
    assert_eq!(w2.err(), Some(StreamError::StaleVersion { requested: 1, committed: 1 }));
    let w3 = ItemStreamComponent::new_writer(&mut store, "c".to_string(), 2);
    assert!(w3.is_ok());
}

#[test]
fn writer_lock_contention() {
    let mut store = ItemStore::new();
    let _w = ItemStreamComponent::new_writer(&mut store, "d".to_string(), 1).unwrap();
    let second = ItemStreamComponent::new_writer(&mut store, "d".to_string(), 2);
    assert_eq!(second.err(), Some(StreamError::MetadataLocked));
    let other = ItemStreamComponent::new_writer(&mut store, "d2".to_string(), 2);
    assert!(other.is_ok());
}

#[test]
fn reader_of_missing_item() {
    let store = ItemStore::new();
    let r = ItemStreamComponent::new_reader(&store, "e".to_string(), 1);
    assert_eq!(r.err(), Some(StreamError::NotFound));
}

#[test]
fn multi_reader_fan_out() {
    let mut store = ItemStore::new();
    let mut w = ItemStreamComponent::new_writer(&mut store, "f".to_string(), 1).unwrap();
    let mut r1 = ItemStreamComponent::new_reader(&store, "f".to_string(), 1).unwrap();
    let mut r2 = ItemStreamComponent::new_reader(&store, "f".to_string(), 1).unwrap();
    let mut written = Vec::new();
    let mut seen1 = Vec::new();
    for i in 0..100u32 {
        let chunk: Vec<u8> = (0..1024u32).map(|j| ((i * 7 + j) % 251) as u8).collect();
        written.extend_from_slice(&chunk);
        w.write_chunk(&mut store, chunk).unwrap();
        if i % 10 == 0 {
            if let ReadOutcome::Data(b) = r1.read_chunk(&store).unwrap() {
                seen1.extend_from_slice(&b);
            }
        }
    }
    w.finalize(&mut store).unwrap();
    let (rest1, _) = read_all(&store, &mut r1);
    seen1.extend_from_slice(&rest1);
    let (all2, chunks2) = read_all(&store, &mut r2);
    assert_eq!(seen1, written);
    assert_eq!(all2, written);
    assert_eq!(chunks2, (100 * 1024 + 8191) / 8192);
    assert_eq!(r1.read_chunk(&store).unwrap(), ReadOutcome::End);
    assert_eq!(r2.read_chunk(&store).unwrap(), ReadOutcome::End);
}

#[test]
fn reads_are_bounded_by_chunk_size() {
    let mut store = ItemStore::new();
    let mut w = ItemStreamComponent::new_writer(&mut store, "g".to_string(), 3).unwrap();
    w.write_chunk(&mut store, vec![7u8; 20000]).unwrap();
    w.finalize(&mut store).unwrap();
    let mut r = ItemStreamComponent::new_reader(&store, "g".to_string(), 3).unwrap();
    let mut sizes = Vec::new();
    loop {
        match r.read_chunk(&store).unwrap() {
            ReadOutcome::Data(b) => sizes.push(b.len()),
            ReadOutcome::End => break,
            ReadOutcome::Pending | ReadOutcome::Abandoned => panic!("stream not finished"),
        }
    }
    assert_eq!(sizes, vec![8192, 8192, 3616]);
}

#[test]
fn fresh_reader_after_commit_matches_follower() {
    let mut store = ItemStore::new();
    let mut w = ItemStreamComponent::new_writer(&mut store, "h".to_string(), 1).unwrap();
    let mut follower = ItemStreamComponent::new_reader(&store, "h".to_string(), 1).unwrap();
    let mut seen = Vec::new();
    for part in [b"one".to_vec(), b"".to_vec(), b"two".to_vec(), b"three".to_vec()] {
        w.write_chunk(&mut store, part).unwrap();
        if let ReadOutcome::Data(b) = follower.read_chunk(&store).unwrap() {
            seen.extend_from_slice(&b);
        }
    }
    w.finalize(&mut store).unwrap();
    let (rest, _) = read_all(&store, &mut follower);
    seen.extend_from_slice(&rest);
    let mut fresh = ItemStreamComponent::new_reader(&store, "h".to_string(), 1).unwrap();
    let (all, _) = read_all(&store, &mut fresh);
    assert_eq!(seen, b"onetwothree".to_vec());
    assert_eq!(all, seen);
}

#[test]
fn committed_versions_strictly_increase() {
    let mut store = ItemStore::new();
    for v in [1u64, 2, 5, 9] {
        let mut w = ItemStreamComponent::new_writer(&mut store, "i".to_string(), v).unwrap();
        w.finalize(&mut store).unwrap();
    }
    let stale = ItemStreamComponent::new_writer(&mut store, "i".to_string(), 7);
    assert_eq!(stale.err(), Some(StreamError::StaleVersion { requested: 7, committed: 9 }));
}

#[test]
fn wrong_direction_is_refused() {
    let mut store = ItemStore::new();
    let mut w = ItemStreamComponent::new_writer(&mut store, "j".to_string(), 1).unwrap();
    assert_eq!(w.read_chunk(&store).err(), Some(StreamError::NotReader));
    let mut r = ItemStreamComponent::new_reader(&store, "j".to_string(), 1).unwrap();
    assert_eq!(r.write_chunk(&mut store, b"x".to_vec()).err(), Some(StreamError::NotWriter));
    assert_eq!(r.finalize(&mut store), Ok(()));
    w.finalize(&mut store).unwrap();
    assert_eq!(w.write_chunk(&mut store, b"x".to_vec()).err(), Some(StreamError::NotWriter));
    assert_eq!(r.read_chunk(&store).unwrap(), ReadOutcome::End);
}

#[test]
fn abandoned_version_is_admitted_again() {
    let mut store = ItemStore::new();
    let w = store.open_writer("k".to_string(), 1).unwrap();
    store.write_chunk(&w, b"partial");
    let mut old_reader = store.open_reader("k".to_string(), 1).unwrap();
    assert_eq!(store.read_chunk(&mut old_reader), ReadOutcome::Data(b"partial".to_vec()));
    store.abandon_writer(w);
    assert_eq!(store.read_chunk(&mut old_reader), ReadOutcome::Abandoned);
    let again = store.open_writer("k".to_string(), 1).unwrap();
    assert_eq!(again.version(), 1);
    store.write_chunk(&again, b"whole");
    assert_eq!(store.read_chunk(&mut old_reader), ReadOutcome::Abandoned);
    assert_eq!(old_reader.offset(), 7);
    let mut r = store.open_reader("k".to_string(), 1).unwrap();
    store.finalize(again);
    assert_eq!(store.read_chunk(&mut r), ReadOutcome::Data(b"whole".to_vec()));
    assert_eq!(store.read_chunk(&mut r), ReadOutcome::End);
    let stale = store.open_writer("k".to_string(), 1);
    assert_eq!(stale.err(), Some(StreamError::StaleVersion { requested: 1, committed: 1 }));
}

#[test]
fn abandoned_stream_keeps_committed_version() {
    let mut store = ItemStore::new();
    let mut w1 = ItemStreamComponent::new_writer(&mut store, "m".to_string(), 1).unwrap();
    w1.finalize(&mut store).unwrap();
    let mut w2 = ItemStreamComponent::new_writer(&mut store, "m".to_string(), 2).unwrap();
    w2.write_chunk(&mut store, b"lost".to_vec()).unwrap();
    w2.abandon(&mut store);
    assert_eq!(w2.write_chunk(&mut store, b"x".to_vec()).err(), Some(StreamError::NotWriter));
    let stale = ItemStreamComponent::new_writer(&mut store, "m".to_string(), 1);
    assert_eq!(stale.err(), Some(StreamError::StaleVersion { requested: 1, committed: 1 }));
    let mut w3 = ItemStreamComponent::new_writer(&mut store, "m".to_string(), 3).unwrap();
    w3.finalize(&mut store).unwrap();
}
