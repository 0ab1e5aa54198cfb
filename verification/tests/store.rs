use cabide::Cabide;
use cabide::Error;
use cabide::Metadata;

/// A simple deterministic byte generator, so runs are repeatable.
fn next_byte(state: &mut u64) -> u8 {
    *state = state.wrapping_mul(6364136223846793005).wrapping_add(1442695040888963407);
    (*state >> 33) as u8
}

fn pseudo_payload(state: &mut u64, len: usize) -> Vec<u8> {
    let mut v = Vec::new();
    for _ in 0..len {
        let mut b = next_byte(state);
        if b == 0 || b == 8 {
            b = 9;
        }
        v.push(b);
    }
    v
}

#[test]
fn round_trip_single_block() {
    let mut cbd = Cabide::new(Vec::new(), None);
    let data = vec![1u8, 2, 3, 4, 5];
    let handle = cbd.write(&data);
    assert_eq!(handle, 0);
    assert_eq!(cbd.read(handle).unwrap(), data);
}

#[test]
fn round_trip_multi_block() {
    let mut cbd = Cabide::new(Vec::new(), None);
    let mut state = 7u64;
    let data = pseudo_payload(&mut state, 65);
    let handle = cbd.write(&data);
    assert_eq!(cbd.read(handle).unwrap(), data);
    assert_eq!(cbd.blocks(), 3);
}

#[test]
fn round_trip_exact_block_boundary() {
    let mut cbd = Cabide::new(Vec::new(), None);
    // 28 bytes fill one block's content exactly; the last byte is neither
    // padding nor the end marker, so the payload survives
    let mut data = Vec::new();
    for i in 0..28 {
        data.push(i as u8 + 1);
    }
    let handle = cbd.write(&data);
    assert_eq!(cbd.read(handle).unwrap(), data);
}

#[test]
fn boundary_payload_ending_in_padding_byte_is_trimmed() {
    let mut cbd = Cabide::new(Vec::new(), None);
    // a payload of exactly 28 bytes whose last byte is zero cannot be told
    // apart from padding; decoding strips it
    let mut data = vec![1u8; 28];
    data[27] = 0;
    let handle = cbd.write(&data);
    assert_eq!(cbd.read(handle).unwrap(), vec![1u8; 27]);
}

#[test]
fn remove_round_trip_and_reuse() {
    let mut cbd = Cabide::new(Vec::new(), None);
    for i in 0..100u8 {
        cbd.write(&vec![i + 1]);
    }
    assert_eq!(cbd.remove(30).unwrap(), vec![31]);
    assert_eq!(cbd.remove(3).unwrap(), vec![4]);
    // writing re-uses freed blocks in the middle, the last freed first
    assert_eq!(cbd.write(&vec![101]), 3);
    assert_eq!(cbd.remove(3).unwrap(), vec![101]);
}

#[test]
fn reuse_prefers_last_freed_of_equal_size() {
    let mut cbd = Cabide::new(Vec::new(), Some(1000));
    assert_eq!(cbd.blocks(), 1000);
    let mut state = 11u64;
    for i in 0..100 {
        let data = pseudo_payload(&mut state, 20);
        assert_eq!(cbd.write(&data), i);
    }
    assert_eq!(cbd.blocks(), 1000);
    cbd.remove(40).unwrap();
    cbd.remove(30).unwrap();
    cbd.remove(35).unwrap();
    // the last freed of the equally sized runs wins
    assert_eq!(cbd.write(&pseudo_payload(&mut state, 20)), 35);
    assert_eq!(cbd.write(&pseudo_payload(&mut state, 20)), 30);
    assert_eq!(cbd.write(&pseudo_payload(&mut state, 20)), 40);
    assert_eq!(cbd.write(&pseudo_payload(&mut state, 20)), 100);
}

#[test]
fn no_fragmentation_of_one_record() {
    let mut cbd = Cabide::new(Vec::new(), None);
    let mut state = 13u64;
    let data = pseudo_payload(&mut state, 60);
    let handle = cbd.write(&data);
    // three contiguous blocks: the head decodes, the interior does not
    assert_eq!(cbd.blocks(), 3);
    assert_eq!(cbd.read(handle).unwrap(), data);
    assert!(matches!(cbd.read(handle + 1), Err(Error::ContinuationBlock)));
    assert!(matches!(cbd.read(handle + 2), Err(Error::ContinuationBlock)));
    assert!(matches!(cbd.read(handle + 3), Err(Error::EmptyBlock)));
}

#[test]
fn blocks_never_decrease() {
    let mut cbd = Cabide::new(Vec::new(), None);
    let mut last = cbd.blocks();
    let mut state = 17u64;
    let mut handles = Vec::new();
    for _ in 0..20 {
        let h = cbd.write(&pseudo_payload(&mut state, 40));
        handles.push(h);
        assert!(cbd.blocks() >= last);
        last = cbd.blocks();
    }
    for h in handles {
        cbd.remove(h).unwrap();
        assert!(cbd.blocks() >= last);
        last = cbd.blocks();
    }
    // a reopen asking for fewer blocks than exist changes nothing
    let reopened = Cabide::new(cbd.bytes().clone(), Some(1));
    assert_eq!(reopened.blocks(), last);
}

#[test]
fn preallocation_is_only_padding() {
    let mut cbd = Cabide::new(Vec::new(), None);
    assert_eq!(cbd.blocks(), 0);
    cbd = Cabide::new(cbd.bytes().clone(), Some(1000));
    assert_eq!(cbd.blocks(), 1000);
    cbd = Cabide::new(cbd.bytes().clone(), Some(30));
    assert_eq!(cbd.blocks(), 1000);
}

#[test]
fn read_errors_name_the_block_state() {
    let mut cbd = Cabide::new(Vec::new(), Some(10));
    assert!(matches!(cbd.read(0), Err(Error::EmptyBlock)));
    assert!(matches!(cbd.read(500), Err(Error::EmptyBlock)));
    let h = cbd.write(&vec![1, 2, 3]);
    assert!(cbd.read(h).is_ok());
    assert!(matches!(cbd.remove(7), Err(Error::EmptyBlock)));
}

#[test]
fn first_and_filter_scan_in_block_order() {
    let mut cbd = Cabide::new(Vec::new(), None);
    for i in 0..20u8 {
        cbd.write(&vec![i, 100]);
    }
    let found = cbd.first(|v: &Vec<u8>| v[0] == 7).unwrap();
    assert_eq!(found, vec![7, 100]);
    assert!(cbd.first(|v: &Vec<u8>| v[0] == 99).is_none());
    let all = cbd.filter(|v: &Vec<u8>| v[0] % 2 == 0);
    assert_eq!(all.len(), 10);
    for (i, v) in all.iter().enumerate() {
        assert_eq!(v[0], 2 * i as u8);
    }
}

#[test]
fn remove_with_takes_all_matches_in_block_order() {
    let mut cbd = Cabide::new(Vec::new(), None);
    for i in 0..10u8 {
        cbd.write(&vec![i, 50]);
    }
    let removed = cbd.remove_with(|v: &Vec<u8>| v[0] % 3 == 0);
    assert_eq!(removed, vec![vec![0, 50], vec![3, 50], vec![6, 50], vec![9, 50]]);
    // what stayed is exactly what the predicate rejected
    let left = cbd.filter(|_v: &Vec<u8>| true);
    assert_eq!(left.len(), 6);
    for v in &left {
        assert!(v[0] % 3 != 0);
    }
    // the freed blocks are eligible again
    assert_eq!(cbd.write(&vec![99, 99]), 9);
}

#[test]
fn truncate_empties_the_store() {
    let mut cbd = Cabide::new(Vec::new(), Some(5));
    cbd.write(&vec![1, 2, 3]);
    cbd.truncate();
    assert_eq!(cbd.blocks(), 0);
    assert!(matches!(cbd.read(0), Err(Error::EmptyBlock)));
}

#[test]
fn open_rejects_a_continuation_after_a_free_block() {
    let mut image = vec![0u8; 30];
    let mut tail = vec![0u8; 30];
    tail[0] = 2;
    image.append(&mut tail);
    assert!(Cabide::open(image, None).is_none());

    let mut good = vec![0u8; 30];
    good[0] = 1;
    good[1] = 42;
    good[2] = 8;
    let store = Cabide::open(good, None);
    assert!(store.is_some());
    assert_eq!(store.unwrap().read(0).unwrap(), vec![42]);
}

#[test]
fn metadata_tags_are_fixed() {
    assert_eq!(Metadata::Empty.as_byte(), 0);
    assert_eq!(Metadata::Start.as_byte(), 1);
    assert_eq!(Metadata::Continuation.as_byte(), 2);
    assert_eq!(Metadata::Empty.as_char(), '\u{0}');
    assert_eq!(Metadata::Start.as_char() as u8, 1);
    assert_eq!(Metadata::Continuation.as_char() as u8, 2);
}

#[test]
fn error_messages_are_stable() {
    assert_eq!(Error::EmptyBlock.message(), "Empty Block");
    assert_eq!(Error::ContinuationBlock.message(), "Continuation Block");
    assert_eq!(Error::NotExistant.message(), "Shard Not Existant");
}

#[test]
fn persistance() {
    let mut cbd = Cabide::new(Vec::new(), None);
    let mut state = 50u64;

    let mut blocks: Vec<(u64, Vec<u8>)> = Vec::new();
    for _ in 0..50 {
        let len = 10 + (next_byte(&mut state) as usize % 80);
        let data = pseudo_payload(&mut state, len);
        let block = cbd.write(&data);
        blocks.push((block, data));
    }

    // reopening from the bytes plays the role of closing and reopening the
    // backing file
    cbd = Cabide::new(cbd.bytes().clone(), Some(10));

    for (block, data) in &blocks {
        let read = cbd.read(*block).unwrap();
        assert_eq!(&read, data);
    }

    assert_eq!(cbd.remove(blocks[8].0).unwrap(), blocks[8].1);

    assert_eq!(cbd.remove(blocks[13].0).unwrap(), blocks[13].1);

    cbd = Cabide::new(cbd.bytes().clone(), Some(10));

    for i in &[8usize, 13] {
        let len = 5 + (next_byte(&mut state) as usize % 20);
        let data = pseudo_payload(&mut state, len);
        let block = cbd.write(&data);
        blocks[*i] = (block, data);
    }

    cbd = Cabide::new(cbd.bytes().clone(), Some(10));

    for (block, data) in blocks {
        assert_eq!(cbd.read(block).unwrap(), data);
    }
}
