use std::collections::BTreeMap;
use std::sync::atomic::{AtomicU8, Ordering};

use academy::cache::{AcademyDataset, Lookup};
use academy::generator::DataGen;
use academy::layout::AcademyDatasetConfig;
use academy::plan::{build_steps, first_block_complete, resume_config};

#[derive(Default)]
struct ByteGen(AtomicU8);

impl DataGen for ByteGen {
    type Output = u8;

    fn gen(&self) -> u8 {
        self.0.fetch_add(1, Ordering::Relaxed)
    }

    fn skip(&mut self, num: usize) {
        self.0.fetch_add(num as u8, Ordering::Relaxed);
    }
}

/// A dataset directory held in memory: file name to contents.
type Dir = BTreeMap<String, Vec<u8>>;

fn slice_name(i: usize) -> String {
    format!("{i}.slice")
}

/// Runs a build against `dir` the way the file-backed builder does, and
/// returns the numbers of the blocks it wrote.
fn build(dir: &mut Dir, length: usize, budget: usize, gen: &mut ByteGen) -> Vec<usize> {
    let mut written = Vec::new();
    let loaded = dir.get("config.dat").and_then(|b| AcademyDatasetConfig::decode(b));
    let resumed = resume_config(length, loaded);
    if resumed.is_none() && loaded.is_some() {
        dir.remove("config.dat");
    }
    let (config, resume) = match resumed {
        Some(c) => (c, true),
        None => {
            let mut first: Vec<u8> = Vec::new();
            loop {
                first.push(gen.gen());
                let size = bincode::serialized_size(&first).unwrap();
                if first_block_complete(first.len(), length, size, budget) {
                    break;
                }
            }
            dir.insert(slice_name(0), bincode::serialize(&first).unwrap());
            written.push(0);
            let c = AcademyDatasetConfig::from_layout(length, first.len(), budget);
            dir.insert("config.dat".to_string(), c.encode());
            (c, false)
        }
    };
    let mut i = config.block_count;
    while dir.remove(&slice_name(i)).is_some() {
        i += 1;
    }
    let present: Vec<bool> =
        (0..config.block_count).map(|b| dir.contains_key(&slice_name(b))).collect();
    for step in build_steps(&config, resume, &present) {
        if step.write {
            let items: Vec<u8> = (0..step.count).map(|_| gen.gen()).collect();
            dir.insert(slice_name(step.block), bincode::serialize(&items).unwrap());
            written.push(step.block);
        } else {
            gen.skip(step.count);
        }
    }
    written
}

fn open(dir: &Dir, budget: usize) -> AcademyDataset<u8> {
    let config = AcademyDatasetConfig::decode(&dir["config.dat"]).unwrap();
    AcademyDataset::new(config, budget)
}

fn read(db: &mut AcademyDataset<u8>, dir: &Dir, index: usize) -> Option<u8> {
    loop {
        match db.get(index) {
            Lookup::OutOfRange => return None,
            Lookup::Found(x) => return Some(x),
            Lookup::Load(b) => {
                let items: Vec<u8> = bincode::deserialize(&dir[&slice_name(b)]).unwrap();
                assert_eq!(items.len(), db.block_len(b));
                db.install(b, items);
            }
        }
    }
}

#[test]
fn test_create_db_01() {
    let mut dir = Dir::new();
    let mut gen = ByteGen::default();
    build(&mut dir, 50, 20, &mut gen);
    let names: Vec<&str> = dir.keys().map(|k| k.as_str()).collect();
    assert_eq!(names.len(), 6, "{names:?}");
    assert!(dir.contains_key("0.slice"));
    assert!(dir.contains_key("1.slice"));
    assert!(dir.contains_key("2.slice"));
    assert!(dir.contains_key("3.slice"));
    assert!(dir.contains_key("4.slice"));
    assert!(dir.contains_key("config.dat"));
}

#[test]
fn test_use_db_01() {
    let mut dir = Dir::new();
    let mut gen = ByteGen::default();
    build(&mut dir, 50, 20, &mut gen);
    drop(gen);

    let mut db = open(&dir, 20);
    let mut occurrences = [false; 50];
    for i in 0..50 {
        occurrences[read(&mut db, &dir, i).unwrap() as usize] = true;
    }
    assert!(!occurrences.contains(&false));
    for i in 50..100 {
        assert_eq!(read(&mut db, &dir, i), None);
    }
}

#[test]
fn round_trip_places_remainder_block_second() {
    let mut dir = Dir::new();
    let mut gen = ByteGen::default();
    build(&mut dir, 50, 20, &mut gen);
    let mut db = open(&dir, 20);
    assert_eq!(db.len(), 50);
    // Block 0 holds the first twelve items, the remainder block 4 the next two,
    // and the full blocks 1..=3 what follows.
    assert_eq!(read(&mut db, &dir, 0), Some(0));
    assert_eq!(read(&mut db, &dir, 11), Some(11));
    assert_eq!(read(&mut db, &dir, 48), Some(12));
    assert_eq!(read(&mut db, &dir, 49), Some(13));
    assert_eq!(read(&mut db, &dir, 12), Some(14));
    assert_eq!(read(&mut db, &dir, 47), Some(49));
}

#[test]
fn fresh_layout_from_budget() {
    let mut dir = Dir::new();
    let mut gen = ByteGen::default();
    build(&mut dir, 50, 20, &mut gen);
    let c = AcademyDatasetConfig::decode(&dir["config.dat"]).unwrap();
    assert_eq!(c.block_size, 12);
    assert_eq!(c.block_count, 5);
    assert_eq!(c.length, 50);
    assert_eq!(c.block_memory_size, 20);
    assert_eq!(c.full_block_count(), 3);
    assert_eq!(c.small_block_count(), 2);
}

#[test]
fn layout_boundary_cases() {
    let single = AcademyDatasetConfig::from_layout(12, 12, 20);
    assert_eq!(single.block_count, 1);
    let exact = AcademyDatasetConfig::from_layout(48, 12, 20);
    assert_eq!(exact.block_count, 4);
    assert_eq!(exact.small_block_count(), 0);
    assert_eq!(exact.block_items(3), 12);
    let ragged = AcademyDatasetConfig::from_layout(50, 12, 20);
    assert_eq!(ragged.block_count, 5);
    assert_eq!(ragged.block_items(4), 2);
    assert_eq!(ragged.block_items(1), 12);
    let ones = AcademyDatasetConfig::from_layout(7, 1, 0);
    assert_eq!(ones.block_count, 7);
}

#[test]
fn whole_dataset_in_one_block() {
    let mut dir = Dir::new();
    let mut gen = ByteGen::default();
    build(&mut dir, 5, 1000, &mut gen);
    assert_eq!(dir.len(), 2);
    let c = AcademyDatasetConfig::decode(&dir["config.dat"]).unwrap();
    assert_eq!((c.block_size, c.block_count), (5, 1));
    let mut db = open(&dir, 1000);
    assert_eq!(read(&mut db, &dir, 4), Some(4));
    assert_eq!(read(&mut db, &dir, 5), None);
}

#[test]
fn locate_item() {
    let c = AcademyDatasetConfig::from_layout(50, 12, 20);
    assert_eq!(c.locate(0), Some((0, 0)));
    assert_eq!(c.locate(13), Some((1, 1)));
    assert_eq!(c.locate(49), Some((4, 1)));
    assert_eq!(c.locate(50), None);
}

#[test]
fn rebuild_writes_nothing() {
    let mut dir = Dir::new();
    let mut gen = ByteGen::default();
    let first = build(&mut dir, 50, 20, &mut gen);
    assert_eq!(first, vec![0, 4, 1, 2, 3]);
    let before = dir.clone();
    let mut gen = ByteGen::default();
    let second = build(&mut dir, 50, 20, &mut gen);
    assert!(second.is_empty());
    assert_eq!(dir, before);
}

#[test]
fn resume_fills_missing_blocks_with_same_data() {
    let mut dir = Dir::new();
    let mut gen = ByteGen::default();
    build(&mut dir, 50, 20, &mut gen);
    let complete = dir.clone();
    dir.remove("2.slice");
    dir.remove("4.slice");
    let mut gen = ByteGen::default();
    let written = build(&mut dir, 50, 20, &mut gen);
    assert_eq!(written, vec![4, 2]);
    assert_eq!(dir, complete);
}

#[test]
fn smaller_rebuild_removes_stale_blocks() {
    let mut dir = Dir::new();
    let mut gen = ByteGen::default();
    build(&mut dir, 50, 20, &mut gen);
    let mut gen = ByteGen::default();
    build(&mut dir, 20, 20, &mut gen);
    let names: Vec<&str> = dir.keys().map(|k| k.as_str()).collect();
    assert_eq!(names, vec!["0.slice", "1.slice", "config.dat"]);
    let c = AcademyDatasetConfig::decode(&dir["config.dat"]).unwrap();
    assert_eq!((c.length, c.block_size, c.block_count), (20, 12, 2));
}

#[test]
fn lru_keeps_most_recent_blocks() {
    let mut dir = Dir::new();
    let mut gen = ByteGen::default();
    build(&mut dir, 50, 20, &mut gen);
    // A budget of two blocks' worth.
    let mut db = open(&dir, 40);
    read(&mut db, &dir, 0);
    read(&mut db, &dir, 12);
    assert!(db.is_resident(0) && db.is_resident(1));
    read(&mut db, &dir, 1);
    read(&mut db, &dir, 24);
    assert!(db.is_resident(0));
    assert!(!db.is_resident(1));
    assert!(db.is_resident(2));
    read(&mut db, &dir, 36);
    assert!(!db.is_resident(0));
    assert!(db.is_resident(2) && db.is_resident(3));
    let resident = (0..db.block_count()).filter(|b| db.is_resident(*b)).count();
    assert_eq!(resident, 2);
}

#[test]
fn small_budget_keeps_one_block() {
    let mut dir = Dir::new();
    let mut gen = ByteGen::default();
    build(&mut dir, 50, 20, &mut gen);
    let mut db = open(&dir, 3);
    read(&mut db, &dir, 0);
    read(&mut db, &dir, 20);
    assert!(!db.is_resident(0));
    assert!(db.is_resident(1));
}

#[test]
fn out_of_range_loads_nothing() {
    let mut dir = Dir::new();
    let mut gen = ByteGen::default();
    build(&mut dir, 50, 20, &mut gen);
    let mut db = open(&dir, 20);
    assert!(matches!(db.get(50), Lookup::OutOfRange));
    assert!(matches!(db.get(0), Lookup::Load(0)));
    assert!(!db.is_resident(0));
}

#[test]
fn manifest_bytes_are_four_little_endian_words() {
    let c = AcademyDatasetConfig::from_layout(50, 12, 20);
    let bytes = c.encode();
    let mut expected = Vec::new();
    for w in [20u64, 5, 12, 50] {
        expected.extend_from_slice(&w.to_le_bytes());
    }
    assert_eq!(bytes, expected);
    let back = AcademyDatasetConfig::decode(&bytes).unwrap();
    assert_eq!(
        (back.block_memory_size, back.block_count, back.block_size, back.length),
        (20, 5, 12, 50)
    );
}

#[test]
fn manifest_rejects_short_or_inconsistent_bytes() {
    let c = AcademyDatasetConfig::from_layout(50, 12, 20);
    let bytes = c.encode();
    assert!(AcademyDatasetConfig::decode(&bytes[..31].to_vec()).is_none());
    let mut wrong_count = bytes.clone();
    wrong_count[8] = 6;
    assert!(AcademyDatasetConfig::decode(&wrong_count).is_none());
    let mut zero_size = bytes.clone();
    zero_size[16] = 0;
    assert!(AcademyDatasetConfig::decode(&zero_size).is_none());
    let mut trailing = bytes.clone();
    trailing.push(7);
    assert!(AcademyDatasetConfig::decode(&trailing).is_some());
}

#[test]
fn resume_only_on_matching_length() {
    let c = AcademyDatasetConfig::from_layout(50, 12, 20);
    assert!(resume_config(50, Some(c)).is_some());
    assert!(resume_config(49, Some(c)).is_none());
    assert!(resume_config(50, None).is_none());
    let broken = AcademyDatasetConfig { block_memory_size: 20, block_count: 9, block_size: 12, length: 50 };
    assert!(resume_config(50, Some(broken)).is_none());
}

#[test]
fn first_block_stops_at_budget_or_length() {
    assert!(!first_block_complete(3, 50, 11, 20));
    assert!(first_block_complete(12, 50, 20, 20));
    assert!(first_block_complete(5, 5, 13, 20));
}

#[test]
fn build_steps_of_fresh_and_resumed_builds() {
    let c = AcademyDatasetConfig::from_layout(50, 12, 20);
    let present = vec![true, true, false, true, true];
    let fresh = build_steps(&c, false, &present);
    let blocks: Vec<(usize, usize, usize, bool)> =
        fresh.iter().map(|s| (s.block, s.count, s.start, s.write)).collect();
    assert_eq!(blocks, vec![(4, 2, 12, true), (1, 12, 14, true), (2, 12, 26, true), (3, 12, 38, true)]);
    let resumed = build_steps(&c, true, &present);
    let blocks: Vec<(usize, usize, usize, bool)> =
        resumed.iter().map(|s| (s.block, s.count, s.start, s.write)).collect();
    assert_eq!(
        blocks,
        vec![(0, 12, 0, false), (4, 2, 12, false), (1, 12, 14, false), (2, 12, 26, true), (3, 12, 38, false)]
    );
}
