use wiki_scraper::binary_search_line::SearchError;
use wiki_scraper::hierarchical_map::{
    find_entry_in_file, HierarchicalMap, MapError, MapFiles, PartitionFile,
};
use wiki_scraper::summary::{describe_partitions, select};
use wiki_scraper::titles::{id_short_key, title_short_key};

fn parity(l: &u32) -> u8 {
    (*l % 2) as u8
}

fn sample() -> HierarchicalMap<u8, u32, String, fn(&u32) -> u8> {
    let mut map: HierarchicalMap<u8, u32, String, fn(&u32) -> u8> =
        HierarchicalMap::new("scratch".to_string(), parity);
    assert_eq!(map.insert(2, "x".to_string()), None);
    assert_eq!(map.insert(3, "y".to_string()), None);
    assert_eq!(map.insert(4, "z".to_string()), None);
    map
}

fn file_text(file: &PartitionFile<u8>) -> Vec<u8> {
    let mut text = String::new();
    for line in &file.lines {
        text.push_str(line);
        text.push('\n');
    }
    text.into_bytes()
}

#[test]
fn insert_then_with_finds_the_value() {
    let mut map = sample();
    assert_eq!(map.insert(4, "w".to_string()), Some("z".to_string()));
    assert_eq!(map.with(&2, None, |v: &String| v.clone()).unwrap(), Some("x".to_string()));
    assert_eq!(map.with(&4, None, |v: &String| v.clone()).unwrap(), Some("w".to_string()));
    assert_eq!(map.with(&5, None, |v: &String| v.clone()).unwrap(), None);
    assert_eq!(map.get(&3), Some(&"y".to_string()));
    assert_eq!(map.get(&7), None);
    assert_eq!(map.total_short_keys(), 2);
    assert_eq!(map.total_keys(), 3);
}

#[test]
fn new_map_is_empty_and_not_loaded() {
    let mut map: HierarchicalMap<u8, u32, String, fn(&u32) -> u8> =
        HierarchicalMap::new("scratch".to_string(), parity);
    assert!(!map.is_fully_loaded());
    assert_eq!(map.total_keys(), 0);
    assert_eq!(map.total_short_keys(), 0);
    assert_eq!(map.prefix(), "scratch");
    map.mark_loaded();
    assert!(map.is_fully_loaded());
}

#[test]
fn mutate_with_default_starts_from_the_default() {
    let mut map: HierarchicalMap<u8, u32, Vec<u32>, fn(&u32) -> u8> =
        HierarchicalMap::new("scratch".to_string(), parity);
    map.mutate_with_default(7, |mut v: Vec<u32>| {
        v.push(1);
        v
    });
    map.mutate_with_default(7, |mut v: Vec<u32>| {
        v.push(2);
        v
    });
    map.mutate_with_default(8, |mut v: Vec<u32>| {
        v.push(3);
        v
    });
    assert_eq!(map.get(&7), Some(&vec![1, 2]));
    assert_eq!(map.get(&8), Some(&vec![3]));
    assert_eq!(map.total_keys(), 2);
}

#[test]
fn with_all_visits_partitions_in_order() {
    let mut map = sample();
    map.mark_loaded();
    let seen = map.with_all(|l: &u32, v: &String| format!("{l}={v}"));
    assert_eq!(seen, vec!["2=x".to_string(), "4=z".to_string(), "3=y".to_string()]);
}

#[test]
fn get_map_shows_sorted_partitions() {
    let map = sample();
    let outer = map.get_map();
    assert_eq!(outer.len(), 2);
    assert_eq!(*outer.key_at(0), 0u8);
    assert_eq!(*outer.key_at(1), 1u8);
    let evens = outer.value_at(0);
    assert_eq!(evens.len(), 2);
    assert_eq!(*evens.key_at(0), 2);
    assert_eq!(*evens.key_at(1), 4);
    assert_eq!(evens.value_at(1), "z");
}

#[test]
fn serialize_writes_manifest_and_sorted_lines() {
    let mut map = sample();
    map.insert(10, "a \"quoted\" title".to_string());
    map.mark_loaded();
    let files = map.serialize().unwrap();
    assert_eq!(files.manifest, "[0,1]");
    assert_eq!(files.partitions.len(), 2);
    assert_eq!(files.partitions[0].short_key, 0);
    assert_eq!(
        files.partitions[0].lines,
        vec![
            "[2,\"x\"]".to_string(),
            "[4,\"z\"]".to_string(),
            "[10,\"a \\\"quoted\\\" title\"]".to_string()
        ]
    );
    assert_eq!(files.partitions[1].short_key, 1);
    assert_eq!(files.partitions[1].lines, vec!["[3,\"y\"]".to_string()]);
}

#[test]
fn partitioned_map_scenario_loads_lazily_from_disk() {
    let mut map = sample();
    map.mark_loaded();
    let files = map.serialize().unwrap();
    assert_eq!(files.manifest, "[0,1]");

    let mut fresh: HierarchicalMap<u8, u32, String, fn(&u32) -> u8> =
        HierarchicalMap::new("scratch".to_string(), parity);
    assert!(matches!(fresh.deserialize(Some(&files), false), Ok(true)));
    assert!(!fresh.is_fully_loaded());
    assert_eq!(fresh.total_short_keys(), 2);
    assert_eq!(fresh.total_keys(), 0);
    assert_eq!(fresh.get(&2), None);

    assert_eq!(fresh.short_key_for(&2), 0);
    assert!(fresh.needs_file(&2));
    let file = file_text(&files.partitions[0]);
    let found = fresh.with(&2, Some(&file), |v: &String| v.clone()).unwrap();
    assert_eq!(found, Some("x".to_string()));
    // The entry is kept in memory now.
    assert!(!fresh.needs_file(&2));
    assert!(fresh.needs_file(&4));
    assert_eq!(fresh.get(&2), Some(&"x".to_string()));
    assert_eq!(fresh.with(&2, None, |v: &String| v.clone()).unwrap(), Some("x".to_string()));
    assert_eq!(fresh.total_keys(), 1);
    // A key that the file does not hold is not made up.
    let missing = fresh.with(&6, Some(&file), |v: &String| v.clone()).unwrap();
    assert_eq!(missing, None);
    // Without a file there is nothing to find.
    let none = fresh.with(&4, None, |v: &String| v.clone()).unwrap();
    assert_eq!(none, None);
}

#[test]
fn fully_loaded_map_does_not_look_at_the_file() {
    let mut map = sample();
    assert!(map.needs_file(&6));
    map.mark_loaded();
    assert!(!map.needs_file(&6));
    let file = b"[6,\"six\"]\n".to_vec();
    let found = map.with(&6, Some(&file), |v: &String| v.clone()).unwrap();
    assert_eq!(found, None);
}

#[test]
fn serialize_then_deserialize_gives_the_same_map() {
    let mut map = sample();
    map.insert(255, "last".to_string());
    map.mark_loaded();
    let files = map.serialize().unwrap();

    let mut fresh: HierarchicalMap<u8, u32, String, fn(&u32) -> u8> =
        HierarchicalMap::new("scratch".to_string(), parity);
    assert!(matches!(fresh.deserialize(Some(&files), true), Ok(true)));
    assert!(fresh.is_fully_loaded());
    assert_eq!(fresh.total_keys(), map.total_keys());
    assert_eq!(fresh.total_short_keys(), map.total_short_keys());
    for key in [2u32, 3, 4, 255] {
        assert_eq!(fresh.get(&key), map.get(&key));
    }
    assert_eq!(fresh.get(&5), None);
    let again = fresh.serialize().unwrap();
    assert_eq!(again.manifest, files.manifest);
    for (a, b) in again.partitions.iter().zip(files.partitions.iter()) {
        assert_eq!(a.short_key, b.short_key);
        assert_eq!(a.lines, b.lines);
    }
}

#[test]
fn round_trip_of_links_and_titles() {
    let mut links: HierarchicalMap<u8, u32, Vec<u32>, fn(&u32) -> u8> =
        HierarchicalMap::new("outgoing_links".to_string(), id_short_key);
    links.insert(1, vec![2, 3]);
    links.insert(257, vec![]);
    links.mark_loaded();
    let files = links.serialize().unwrap();
    assert_eq!(files.manifest, "[1]");
    assert_eq!(
        files.partitions[0].lines,
        vec!["[1,[2,3]]".to_string(), "[257,[]]".to_string()]
    );
    let mut back: HierarchicalMap<u8, u32, Vec<u32>, fn(&u32) -> u8> =
        HierarchicalMap::new("outgoing_links".to_string(), id_short_key);
    assert!(matches!(back.deserialize(Some(&files), true), Ok(true)));
    assert_eq!(back.get(&1), Some(&vec![2, 3]));
    assert_eq!(back.get(&257), Some(&vec![]));

    let by_title = |t: &String| title_short_key(t);
    let mut titles = HierarchicalMap::new("title_to_id".to_string(), by_title);
    titles.insert("Apple".to_string(), 5u32);
    titles.insert("Help:Contents".to_string(), 6u32);
    titles.insert("42".to_string(), 7u32);
    titles.mark_loaded();
    let files = titles.serialize().unwrap();
    assert_eq!(files.manifest, "[\"AP\",\"CO\",\"other\"]");
    assert_eq!(files.partitions[1].lines, vec!["[\"Help:Contents\",6]".to_string()]);
    let mut back = HierarchicalMap::new("title_to_id".to_string(), by_title);
    assert!(matches!(back.deserialize(Some(&files), true), Ok(true)));
    assert_eq!(back.get(&"Apple".to_string()), Some(&5));
    assert_eq!(back.get(&"42".to_string()), Some(&7));
}

#[test]
fn deserialize_without_files_changes_nothing() {
    let mut map = sample();
    assert!(matches!(map.deserialize(None, true), Ok(false)));
    assert!(!map.is_fully_loaded());
    assert_eq!(map.total_keys(), 3);
}

#[test]
fn deserialize_skips_empty_lines() {
    let files = MapFiles {
        manifest: "[0]".to_string(),
        partitions: vec![PartitionFile {
            short_key: 0u8,
            lines: vec!["".to_string(), "[2,\"x\"]".to_string(), "".to_string()],
        }],
    };
    let mut map: HierarchicalMap<u8, u32, String, fn(&u32) -> u8> =
        HierarchicalMap::new("scratch".to_string(), parity);
    assert!(matches!(map.deserialize(Some(&files), true), Ok(true)));
    assert_eq!(map.get(&2), Some(&"x".to_string()));
    assert_eq!(map.total_keys(), 1);
}

#[test]
fn deserialize_reports_each_kind_of_damage() {
    let fresh = || -> HierarchicalMap<u8, u32, String, fn(&u32) -> u8> {
        HierarchicalMap::new("scratch".to_string(), parity)
    };
    let bad_manifest = MapFiles { manifest: "{".to_string(), partitions: vec![] };
    assert!(matches!(fresh().deserialize(Some(&bad_manifest), false), Err(MapError::Manifest)));

    let no_file = MapFiles { manifest: "[0]".to_string(), partitions: vec![] };
    assert!(matches!(fresh().deserialize(Some(&no_file), true), Err(MapError::MissingPartition)));
    // The partitions are not read at all unless they are asked for.
    assert!(matches!(fresh().deserialize(Some(&no_file), false), Ok(true)));

    let bad_line = MapFiles {
        manifest: "[0]".to_string(),
        partitions: vec![PartitionFile { short_key: 0u8, lines: vec!["[2,".to_string()] }],
    };
    assert!(matches!(fresh().deserialize(Some(&bad_line), true), Err(MapError::Line)));

    let misplaced = MapFiles {
        manifest: "[0]".to_string(),
        partitions: vec![PartitionFile { short_key: 0u8, lines: vec!["[3,\"y\"]".to_string()] }],
    };
    assert!(matches!(fresh().deserialize(Some(&misplaced), true), Err(MapError::Misplaced)));
}

#[test]
fn deserialize_empties_the_listed_partitions() {
    let mut map = sample();
    let files = MapFiles { manifest: "[0]".to_string(), partitions: vec![] };
    assert!(matches!(map.deserialize(Some(&files), false), Ok(true)));
    assert_eq!(map.get(&2), None);
    assert_eq!(map.get(&4), None);
    assert_eq!(map.get(&3), Some(&"y".to_string()));
}

#[test]
fn find_entry_in_file_searches_sorted_records() {
    let file = b"[1,\"a\"]\n[3,\"c\"]\n[5,\"e\"]\n[7,\"g\"]\n".to_vec();
    let found: Option<String> = find_entry_in_file(&file, &5u32).unwrap();
    assert_eq!(found, Some("e".to_string()));
    let found: Option<String> = find_entry_in_file(&file, &1u32).unwrap();
    assert_eq!(found, Some("a".to_string()));
    let found: Option<String> = find_entry_in_file(&file, &7u32).unwrap();
    assert_eq!(found, Some("g".to_string()));
    let found: Option<String> = find_entry_in_file(&file, &4u32).unwrap();
    assert_eq!(found, None);
    // A line that is no record is reported once a probe reads it.
    let broken = b"[1,\"a\"]\nnot json\n[5,\"e\"]\n".to_vec();
    let r: Result<Option<String>, _> = find_entry_in_file(&broken, &1u32);
    assert!(matches!(r, Err(SearchError::NoKey)));
    let r: Result<Option<String>, _> = find_entry_in_file(&broken, &5u32);
    assert!(matches!(r, Err(SearchError::NoKey)));
    let unreadable = vec![b'[', b'1', b',', 0xff, b']', b'\n'];
    let r: Result<Option<String>, _> = find_entry_in_file(&unreadable, &1u32);
    assert!(matches!(r, Err(SearchError::Encoding)));
    let r: Result<Option<String>, _> = find_entry_in_file(&broken, &9u32);
    assert_eq!(r.unwrap(), None);
    // Of several entries with one key the first is found.
    let twice = b"[1,\"a\"]\n[3,\"c\"]\n[3,\"d\"]\n[3,\"e\"]\n".to_vec();
    let found: Option<String> = find_entry_in_file(&twice, &3u32).unwrap();
    assert_eq!(found, Some("c".to_string()));
}

#[test]
fn summary_names_the_largest_and_the_smallest_partitions() {
    let sizes = vec![2usize, 1, 2, 1, 3, 0, 7];
    let labels: Vec<String> = ["a", "b", "c", "d", "e", "f", "g"].iter().map(|l| l.to_string()).collect();
    assert_eq!(select(&sizes, true, 5), vec![5, 1, 3, 0, 2]);
    assert_eq!(select(&sizes, false, 5), vec![6, 4, 2, 0, 3]);
    assert_eq!(select(&sizes, true, 0), Vec::<usize>::new());
    assert_eq!(select(&sizes, false, 9), vec![6, 4, 2, 0, 3, 1, 5]);
    assert_eq!(select(&Vec::new(), true, 5), Vec::<usize>::new());
    assert_eq!(
        describe_partitions(16, &sizes, &labels),
        "Hierarchical map using 16 total keys and 7 short keys:\n\
         * Overutilised short keys:\n\
         \x20 - 7 entries: g\n\
         \x20 - 3 entries: e\n\
         \x20 - 2 entries: c\n\
         \x20 - 2 entries: a\n\
         \x20 - 1 entries: d\n\
         * Underutilised short keys:\n\
         \x20 - 0 entries: f\n\
         \x20 - 1 entries: b\n\
         \x20 - 1 entries: d\n\
         \x20 - 2 entries: a\n\
         \x20 - 2 entries: c\n"
    );
}

#[test]
fn summary_of_a_map() {
    let map = sample();
    let labels: Vec<String> =
        (0..map.total_short_keys()).map(|i| map.get_map().key_at(i).to_string()).collect();
    let sizes = map.partition_sizes();
    assert_eq!(map.describe(&labels), describe_partitions(map.total_keys(), &sizes, &labels));
    assert_eq!(
        map.describe(&labels),
        "Hierarchical map using 3 total keys and 2 short keys:\n\
         * Overutilised short keys:\n\
         \x20 - 2 entries: 0\n\
         \x20 - 1 entries: 1\n\
         * Underutilised short keys:\n\
         \x20 - 1 entries: 1\n\
         \x20 - 2 entries: 0\n"
    );
    let empty: HierarchicalMap<u8, u32, String, fn(&u32) -> u8> =
        HierarchicalMap::new("scratch".to_string(), parity);
    assert_eq!(
        empty.describe(&Vec::new()),
        "Hierarchical map using 0 total keys and 0 short keys:\n\
         * Overutilised short keys:\n* Underutilised short keys:\n"
    );
}
