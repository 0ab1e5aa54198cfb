use cabide::Error;
use cabide::hash::ConstHash;
use cabide::hash::FirstByteHash;
use cabide::hash::HashCabide;
use cabide::order::FirstByteKey;
use cabide::order::OrderCabide;
use cabide::order::BUFFER_MAX_BLOCKS;

#[test]
fn hash_single_shard_round_trip() {
    // every payload lands in shard 0
    let mut store = HashCabide::new(ConstHash { value: 0 });
    let mut handles = Vec::new();
    for i in 0..5u8 {
        let data = vec![i + 10, i];
        let handle = store.write(&data);
        assert_eq!(handle.0, 0);
        handles.push((handle, data));
    }
    for (handle, data) in &handles {
        assert_eq!(&store.read(*handle).unwrap(), data);
    }
    // a shard that was never created does not exist
    assert!(matches!(store.read((1, 0)), Err(Error::NotExistant)));
}

#[test]
fn hash_routes_by_value_and_unions_filters() {
    let mut store = HashCabide::new(FirstByteHash {});
    let a = vec![3u8, 1];
    let b = vec![5u8, 2];
    let c = vec![3u8, 3];
    let ha = store.write(&a);
    let hb = store.write(&b);
    let hc = store.write(&c);
    assert_eq!(ha.0, 3);
    assert_eq!(hb.0, 5);
    assert_eq!(hc.0, 3);
    assert_eq!(store.read(ha).unwrap(), a);
    assert_eq!(store.read(hb).unwrap(), b);
    assert_eq!(store.read(hc).unwrap(), c);
    // the union over shards comes in ascending hash order, without
    // duplicates or omissions
    let all = store.filter(|_v: &Vec<u8>| true);
    assert_eq!(all, vec![a.clone(), c.clone(), b.clone()]);
    let threes = store.filter(|v: &Vec<u8>| v[0] == 3);
    assert_eq!(threes, vec![a.clone(), c.clone()]);
    assert_eq!(store.blocks(), 3);
}

#[test]
fn hash_remove_frees_within_the_shard() {
    let mut store = HashCabide::new(ConstHash { value: 9 });
    let a = vec![1u8, 1];
    let b = vec![2u8, 2];
    let ha = store.write(&a);
    let hb = store.write(&b);
    assert_eq!(store.remove(ha).unwrap(), a);
    assert!(matches!(store.read(ha), Err(Error::EmptyBlock)));
    assert_eq!(store.read(hb).unwrap(), b);
    // the freed block is reused inside the same shard
    let c = vec![3u8, 3];
    let hc = store.write(&c);
    assert_eq!(hc, ha);
    assert!(matches!(store.remove((33, 0)), Err(Error::NotExistant)));
}

#[test]
fn hash_shard_survives_reinstallation() {
    // writing, then rebuilding the shard from its raw bytes, plays the role
    // of closing and reopening the shard file
    let mut store = HashCabide::new(ConstHash { value: 4 });
    let data = vec![8u8, 8, 8];
    let handle = store.write(&data);
    let mut reopened = HashCabide::new(ConstHash { value: 4 });
    let shard = cabide::Cabide::new(store.shard_bytes(4).unwrap().clone(), None);
    reopened.install_shard(4, shard);
    assert_eq!(reopened.read(handle).unwrap(), data);
}

#[test]
fn order_flush_at_the_buffer_bound_empties_the_buffer() {
    let mut store = OrderCabide::new(FirstByteKey {});
    for i in 0..BUFFER_MAX_BLOCKS - 1 {
        store.write(&vec![(i % 250) as u8, 1]);
        assert_eq!(store.blocks(), i + 1);
    }
    // the write that fills the buffer triggers the flush into main
    store.write(&vec![250u8, 1]);
    assert_eq!(store.blocks(), BUFFER_MAX_BLOCKS);
    // later writes land in the emptied buffer again
    store.write(&vec![251u8, 1]);
    assert_eq!(store.blocks(), BUFFER_MAX_BLOCKS + 1);
    assert_eq!(store.first(251).unwrap(), vec![251, 1]);
}

#[test]
fn order_store_finds_buffered_records() {
    let mut store = OrderCabide::new(FirstByteKey {});
    store.write(&vec![7u8, 1]);
    store.write(&vec![3u8, 2]);
    store.write(&vec![9u8, 3]);
    assert_eq!(store.first(3).unwrap(), vec![3, 2]);
    assert_eq!(store.filter(9), vec![vec![9, 3]]);
    assert!(store.first(100).is_none());
    assert_eq!(store.blocks(), 3);
}

#[test]
fn order_store_remove_takes_matches_out() {
    let mut store = OrderCabide::new(FirstByteKey {});
    store.write(&vec![5u8, 1]);
    store.write(&vec![6u8, 2]);
    store.write(&vec![5u8, 3]);
    let removed = store.remove(5);
    assert_eq!(removed, vec![vec![5, 1], vec![5, 3]]);
    assert!(store.first(5).is_none());
    assert_eq!(store.first(6).unwrap(), vec![6, 2]);
}

#[test]
fn order_store_reopens_from_its_images() {
    let mut store = OrderCabide::new(FirstByteKey {});
    // enough writes to flush some records into main and leave some buffered
    let count = BUFFER_MAX_BLOCKS + 3;
    for i in (0..count).rev() {
        store.write(&vec![i as u8, 42]);
    }
    let buffer_bytes = store.buffer_bytes().clone();
    let main_bytes = store.main_bytes().clone();
    // reopening from the two images plays the role of reopening the files;
    // nothing is lost
    let reopened = OrderCabide::open(buffer_bytes, main_bytes, FirstByteKey {}).unwrap();
    assert_eq!(reopened.blocks(), store.blocks());
    for i in 0..3 {
        assert_eq!(reopened.first(i).unwrap(), vec![i as u8, 42]);
    }
    let mid = 3 + (count - 3) / 2;
    assert_eq!(reopened.first(mid).unwrap(), vec![mid as u8, 42]);
}

#[test]
fn order_open_rejects_an_unsorted_main_image() {
    // a main image whose records are out of key order cannot carry the
    // pair's guarantees
    let mut main = cabide::Cabide::new(Vec::new(), None);
    main.write(&vec![9u8, 1]);
    main.write(&vec![2u8, 1]);
    let main_bytes = main.bytes().clone();
    assert!(OrderCabide::open(Vec::new(), main_bytes.clone(), FirstByteKey {}).is_none());
    // sorted the other way round it is accepted
    let mut sorted = cabide::Cabide::new(Vec::new(), None);
    sorted.write(&vec![2u8, 1]);
    sorted.write(&vec![9u8, 1]);
    let ok = OrderCabide::open(Vec::new(), sorted.bytes().clone(), FirstByteKey {});
    assert!(ok.is_some());
    assert_eq!(ok.unwrap().first(9).unwrap(), vec![9, 1]);
}

#[test]
fn order_maintenance_across_a_flush() {
    let mut store = OrderCabide::new(FirstByteKey {});
    // enough distinct single-block records to trigger a flush, written in
    // descending key order so the flush really has to sort
    let count = BUFFER_MAX_BLOCKS + 5;
    for i in (0..count).rev() {
        store.write(&vec![i as u8, 77]);
    }
    // after the flush the buffer holds the last few keys; the full scan
    // finds each of them
    for i in 0..5 {
        let found = store.first(i).unwrap_or_else(|| panic!("buffered key {} lost", i));
        assert_eq!(found, vec![i as u8, 77]);
    }
    // the flushed keys sit sorted in the main store; the positional probe
    // is a heuristic, so not every key is reachable, but whatever it
    // returns is an exact match, each key at most once
    let mut probed_hits = 0;
    for i in 5..count {
        let matches = store.filter(i);
        assert!(matches.len() <= 1);
        if matches.len() == 1 {
            assert_eq!(matches[0], vec![i as u8, 77]);
            probed_hits += 1;
        }
    }
    // the midmost flushed key is where the probe starts; it is always found
    let mid = 5 + (count - 5) / 2;
    assert_eq!(store.first(mid).unwrap(), vec![mid as u8, 77]);
    assert!(probed_hits > 0);
}

#[test]
fn order_open_rejects_a_payload_that_would_not_reframe() {
    // a hand-laid two-block record whose decoded payload is exactly 28
    // bytes ending in the end marker: rewriting it on a flush would shorten
    // it, so the pair refuses the image
    let mut img = vec![0u8; 60];
    img[0] = 1;
    for i in 1..28 {
        img[i] = 9;
    }
    img[28] = 8;
    img[30] = 2;
    img[31] = 8;
    let probe = cabide::Cabide::new(img.clone(), None);
    let decoded = probe.read(0).unwrap();
    assert_eq!(decoded.len(), 28);
    assert_eq!(decoded[27], 8);
    assert!(OrderCabide::open(img, Vec::new(), FirstByteKey {}).is_none());
}
