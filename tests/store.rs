use std::collections::{BTreeMap, HashMap};

use kvs::codec::{decode_command, encode_command};
use kvs::naming::{parse_log_name, segment_gens};
use kvs::{CommandPos, DataCommand, Effect, KvStore, KvsError};

/// Applies queued effects to an in-memory picture of a data directory.
fn flush(store: &mut KvStore, disk: &mut BTreeMap<u64, Vec<u8>>) {
    for e in store.take_effects() {
        match e {
            Effect::Create { gen } => {
                disk.entry(gen).or_default();
            }
            Effect::Append { gen, bytes } => disk.entry(gen).or_default().extend_from_slice(&bytes),
            Effect::Delete { gen } => {
                disk.remove(&gen);
            }
        }
    }
}

fn reopen(disk: &BTreeMap<u64, Vec<u8>>) -> KvStore {
    let listing: Vec<(u64, Vec<u8>)> = disk.iter().map(|(g, b)| (*g, b.clone())).collect();
    KvStore::open(listing).expect("reopen")
}

fn s(x: &str) -> String {
    x.to_owned()
}

#[test]
fn basic_round_trip() {
    let mut store = KvStore::open(vec![]).unwrap();
    store.set(s("a"), s("1")).unwrap();
    assert_eq!(store.get(s("a")).unwrap(), Some(s("1")));
    assert_eq!(store.get(s("b")).unwrap(), None);
}

#[test]
fn overwrite_then_read() {
    let mut store = KvStore::open(vec![]).unwrap();
    store.set(s("k"), s("v1")).unwrap();
    store.set(s("k"), s("v2")).unwrap();
    assert_eq!(store.get(s("k")).unwrap(), Some(s("v2")));
}

#[test]
fn remove_then_remove_again() {
    let mut store = KvStore::open(vec![]).unwrap();
    store.set(s("k"), s("v")).unwrap();
    assert_eq!(store.remove(s("k")), Ok(()));
    assert_eq!(store.get(s("k")).unwrap(), None);
    assert_eq!(store.remove(s("k")), Err(KvsError::KeyNotFound));
}

#[test]
fn remove_of_absent_key_writes_nothing() {
    let mut store = KvStore::open(vec![]).unwrap();
    store.set(s("x"), s("1")).unwrap();
    let _ = store.take_effects();
    assert_eq!(store.remove(s("nope")), Err(KvsError::KeyNotFound));
    assert!(store.take_effects().is_empty());
    assert_eq!(store.get(s("x")).unwrap(), Some(s("1")));
}

#[test]
fn persistence_across_restart() {
    let mut disk = BTreeMap::new();
    let mut store = KvStore::open(vec![]).unwrap();
    store.set(s("a"), s("1")).unwrap();
    store.set(s("b"), s("2")).unwrap();
    store.remove(s("a")).unwrap();
    flush(&mut store, &mut disk);
    drop(store);
    let store = reopen(&disk);
    assert_eq!(store.get(s("a")).unwrap(), None);
    assert_eq!(store.get(s("b")).unwrap(), Some(s("2")));
}

#[test]
fn reopen_writes_to_next_generation() {
    let mut disk = BTreeMap::new();
    let mut store = KvStore::open(vec![]).unwrap();
    assert_eq!(store.active_gen(), 1);
    store.set(s("a"), s("1")).unwrap();
    flush(&mut store, &mut disk);
    let mut store = reopen(&disk);
    assert_eq!(store.active_gen(), 2);
    let effects = store.take_effects();
    assert_eq!(effects.len(), 1);
    assert!(matches!(effects[0], Effect::Create { gen: 2 }));
}

#[test]
fn compaction_triggered() {
    let mut disk = BTreeMap::new();
    let mut store = KvStore::open(vec![]).unwrap();
    let first = "x".repeat(200);
    let second = "y".repeat(200);
    for i in 0..1000 {
        store.set(format!("k_{}", i), first.clone()).unwrap();
    }
    flush(&mut store, &mut disk);
    let gen_before = store.active_gen();
    for i in 0..1000 {
        store.set(format!("k_{}", i), second.clone()).unwrap();
    }
    flush(&mut store, &mut disk);
    assert!(store.active_gen() > gen_before);
    assert!(!disk.contains_key(&gen_before));
    for i in 0..1000 {
        assert_eq!(store.get(format!("k_{}", i)).unwrap(), Some(second.clone()));
    }
    let store = reopen(&disk);
    for i in 0..1000 {
        assert_eq!(store.get(format!("k_{}", i)).unwrap(), Some(second.clone()));
    }
}

#[test]
fn compaction_leaves_only_live_records() {
    let mut disk = BTreeMap::new();
    let mut store = KvStore::open(vec![]).unwrap();
    let big = "z".repeat(1000);
    for _ in 0..66 {
        store.set(s("hot"), big.clone()).unwrap();
    }
    flush(&mut store, &mut disk);
    assert_eq!(store.useless_size(), 65 * 1020);
    store.set(s("cold"), s("c")).unwrap();
    flush(&mut store, &mut disk);
    assert_eq!(store.useless_size(), 0);
    assert_eq!(store.active_gen(), 2);
    assert_eq!(disk.len(), 1);
    let live = encode_command(&DataCommand::set(s("hot"), big.clone())).len()
        + encode_command(&DataCommand::set(s("cold"), s("c"))).len();
    assert_eq!(disk[&2].len(), live);
    assert_eq!(store.get(s("hot")).unwrap(), Some(big));
    assert_eq!(store.get(s("cold")).unwrap(), Some(s("c")));
}

#[test]
fn interleaved_workload() {
    let mut disk = BTreeMap::new();
    let mut store = KvStore::open(vec![]).unwrap();
    let mut reference: HashMap<String, String> = HashMap::new();
    let mut seed: u64 = 0x2545_f491_4f6c_dd1d;
    for step in 0..10_000u32 {
        seed = seed.wrapping_mul(6364136223846793005).wrapping_add(1442695040888963407);
        let key = format!("key{}", (seed >> 33) % 50);
        match (seed >> 20) % 3 {
            0 => {
                let value = format!("value{}-{}", step, "v".repeat(((seed >> 40) % 300) as usize));
                store.set(key.clone(), value.clone()).unwrap();
                reference.insert(key, value);
            }
            1 => {
                assert_eq!(store.get(key.clone()).unwrap(), reference.get(&key).cloned());
            }
            _ => {
                let expected = if reference.remove(&key).is_some() {
                    Ok(())
                } else {
                    Err(KvsError::KeyNotFound)
                };
                assert_eq!(store.remove(key), expected);
            }
        }
        if step % 1000 == 999 {
            flush(&mut store, &mut disk);
            store = reopen(&disk);
        }
    }
    for (k, v) in &reference {
        assert_eq!(store.get(k.clone()).unwrap(), Some(v.clone()));
    }
}

#[test]
fn independent_keys() {
    let mut store = KvStore::open(vec![]).unwrap();
    store.set(s("a"), s("1")).unwrap();
    store.set(s("b"), s("2")).unwrap();
    store.remove(s("a")).unwrap();
    store.set(s("c"), s("3")).unwrap();
    assert_eq!(store.get(s("b")).unwrap(), Some(s("2")));
    assert_eq!(store.get(s("c")).unwrap(), Some(s("3")));
    assert_eq!(store.get(s("a")).unwrap(), None);
}

#[test]
fn empty_key_and_value() {
    let mut store = KvStore::open(vec![]).unwrap();
    store.set(s(""), s("")).unwrap();
    assert_eq!(store.get(s("")).unwrap(), Some(s("")));
}

#[test]
fn non_ascii_round_trip() {
    let mut disk = BTreeMap::new();
    let mut store = KvStore::open(vec![]).unwrap();
    store.set(s("ключ"), s("значение ✓")).unwrap();
    flush(&mut store, &mut disk);
    let store = reopen(&disk);
    assert_eq!(store.get(s("ключ")).unwrap(), Some(s("значение ✓")));
}

#[test]
fn record_bytes_are_exact() {
    let bytes = encode_command(&DataCommand::set(s("ab"), s("c")));
    assert_eq!(
        bytes,
        vec![1, 2, 0, 0, 0, 0, 0, 0, 0, 1, 0, 0, 0, 0, 0, 0, 0, b'a', b'b', b'c']
    );
    let bytes = encode_command(&DataCommand::rm(s("ab")));
    assert_eq!(bytes, vec![2, 2, 0, 0, 0, 0, 0, 0, 0, b'a', b'b']);
}

#[test]
fn decode_reads_back_records() {
    let mut buf = encode_command(&DataCommand::set(s("key"), s("value")));
    let first = buf.len();
    buf.extend(encode_command(&DataCommand::rm(s("key"))));
    match decode_command(&buf, 0, buf.len()) {
        Ok(Some((DataCommand::Put { key, value }, n))) => {
            assert_eq!((key.as_str(), value.as_str(), n), ("key", "value", first));
        }
        other => panic!("unexpected {:?}", other),
    }
    match decode_command(&buf, first, buf.len()) {
        Ok(Some((DataCommand::Rm { key }, n))) => {
            assert_eq!((key.as_str(), n), ("key", buf.len() - first));
        }
        other => panic!("unexpected {:?}", other),
    }
    assert!(matches!(decode_command(&buf, buf.len(), buf.len()), Ok(None)));
}

#[test]
fn torn_tail_reads_as_end() {
    let buf = encode_command(&DataCommand::set(s("key"), s("value")));
    for cut in 1..buf.len() {
        assert!(matches!(decode_command(&buf, 0, cut), Ok(None)));
    }
}

#[test]
fn corrupt_records_are_errors() {
    assert!(matches!(decode_command(&[7, 0, 0], 0, 3), Err(KvsError::Decode)));
    let bad_utf8 = vec![2, 1, 0, 0, 0, 0, 0, 0, 0, 0xff];
    assert!(matches!(decode_command(&bad_utf8, 0, bad_utf8.len()), Err(KvsError::Decode)));
}

#[test]
fn open_keeps_records_before_torn_tail() {
    let mut seg = encode_command(&DataCommand::set(s("a"), s("1")));
    let torn = encode_command(&DataCommand::set(s("b"), s("2")));
    seg.extend_from_slice(&torn[..torn.len() - 1]);
    let store = KvStore::open(vec![(3, seg)]).unwrap();
    assert_eq!(store.get(s("a")).unwrap(), Some(s("1")));
    assert_eq!(store.get(s("b")).unwrap(), None);
    assert_eq!(store.active_gen(), 4);
}

#[test]
fn open_rejects_corrupt_segment() {
    let r = KvStore::open(vec![(1, vec![9, 9, 9])]);
    assert!(matches!(r, Err(KvsError::Decode)));
}

#[test]
fn open_rejects_exhausted_generation() {
    let r = KvStore::open(vec![(u64::MAX, vec![])]);
    assert!(matches!(r, Err(KvsError::GenerationExhausted)));
}

#[test]
fn open_counts_stale_bytes() {
    let a1 = encode_command(&DataCommand::set(s("a"), s("1")));
    let a2 = encode_command(&DataCommand::set(s("a"), s("2")));
    let rm = encode_command(&DataCommand::rm(s("a")));
    let mut seg = a1.clone();
    seg.extend_from_slice(&a2);
    seg.extend_from_slice(&rm);
    let store = KvStore::open(vec![(1, seg)]).unwrap();
    assert_eq!(store.useless_size(), (a1.len() + a2.len() + rm.len()) as u64);
    assert_eq!(store.get(s("a")).unwrap(), None);
}

#[test]
fn log_names() {
    assert_eq!(parse_log_name("7.log"), Some(7));
    assert_eq!(parse_log_name("0042.log"), Some(42));
    assert_eq!(parse_log_name("18446744073709551615.log"), Some(u64::MAX));
    assert_eq!(parse_log_name("18446744073709551616.log"), None);
    assert_eq!(parse_log_name(".log"), None);
    assert_eq!(parse_log_name("a.log"), None);
    assert_eq!(parse_log_name("7.txt"), None);
    assert_eq!(parse_log_name("-1.log"), None);
}

#[test]
fn segment_gens_sorted_unique() {
    let names = vec![s("3.log"), s("1.log"), s("notes"), s("03.log"), s("2.log")];
    assert_eq!(segment_gens(&names), vec![1, 2, 3]);
    assert_eq!(segment_gens(&vec![]), Vec::<u64>::new());
}

#[test]
fn command_pos_change() {
    let mut p = CommandPos { file_id: 1, value_size: 10, value_pos: 5 };
    assert_eq!(p.change(2, 20, 7), 10);
    assert_eq!(p, CommandPos { file_id: 2, value_size: 20, value_pos: 7 });
}

#[test]
fn error_messages() {
    assert_eq!(KvsError::KeyNotFound.message(), "Key not found");
    assert_eq!(KvsError::UnexpectedCommandType.message(), "Unexpected command type");
}

#[test]
fn explicit_compaction_keeps_contents() {
    let mut disk = BTreeMap::new();
    let mut store = KvStore::open(vec![]).unwrap();
    store.set(s("a"), s("1")).unwrap();
    store.set(s("b"), s("2")).unwrap();
    store.set(s("a"), s("3")).unwrap();
    store.remove(s("b")).unwrap();
    flush(&mut store, &mut disk);
    let gen = store.active_gen();
    store.compact();
    flush(&mut store, &mut disk);
    assert_eq!(store.active_gen(), gen + 1);
    assert_eq!(store.useless_size(), 0);
    assert_eq!(disk.keys().copied().collect::<Vec<u64>>(), vec![gen + 1]);
    assert_eq!(disk[&(gen + 1)], encode_command(&DataCommand::set(s("a"), s("3"))));
    assert_eq!(store.get(s("a")).unwrap(), Some(s("3")));
    assert_eq!(store.get(s("b")).unwrap(), None);
    let store = reopen(&disk);
    assert_eq!(store.get(s("a")).unwrap(), Some(s("3")));
}

#[test]
fn stale_bytes_follow_overwrites_and_removals() {
    let mut store = KvStore::open(vec![]).unwrap();
    let a1 = encode_command(&DataCommand::set(s("a"), s("1"))).len() as u64;
    let rm = encode_command(&DataCommand::rm(s("a"))).len() as u64;
    store.set(s("a"), s("1")).unwrap();
    assert_eq!(store.useless_size(), 0);
    store.set(s("a"), s("2")).unwrap();
    assert_eq!(store.useless_size(), a1);
    store.remove(s("a")).unwrap();
    assert_eq!(store.useless_size(), 2 * a1 + rm);
}

#[test]
fn open_counts_lone_tombstone_as_stale() {
    let rm = encode_command(&DataCommand::rm(s("ghost")));
    let b1 = encode_command(&DataCommand::set(s("b"), s("1")));
    let mut seg = rm.clone();
    seg.extend_from_slice(&b1);
    let b2 = encode_command(&DataCommand::set(s("b"), s("22")));
    let store = KvStore::open(vec![(1, seg), (4, b2)]).unwrap();
    assert_eq!(store.useless_size(), (rm.len() + b1.len()) as u64);
    assert_eq!(store.get(s("b")).unwrap(), Some(s("22")));
    assert_eq!(store.active_gen(), 5);
}
