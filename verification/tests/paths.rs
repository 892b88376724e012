use ddup::dirlist::DirList;
use ddup::utils::{hash_map_to_paths, join_path, path_components, usn_records_to_hash_map};
use ddup::volume::{classify_journal_failure, classify_open_failure, device_path, VolumeError};
use ddup::{UsnRecord, UsnRecordType};

fn dir(id: u64, parent_id: u64, name: &str) -> UsnRecord {
    UsnRecord {
        id,
        parent_id,
        record_type: UsnRecordType::Directory,
        filename: String::from(name),
    }
}

fn file(id: u64, parent_id: u64, name: &str) -> UsnRecord {
    UsnRecord { id, parent_id, record_type: UsnRecordType::File, filename: String::from(name) }
}

fn sorted(mut paths: Vec<Vec<String>>) -> Vec<Vec<String>> {
    paths.sort();
    paths
}

fn strings(parts: &[&str]) -> Vec<String> {
    parts.iter().map(|p| String::from(*p)).collect()
}

#[test]
fn path_runs_from_root_to_file() {
    let map = usn_records_to_hash_map(vec![
        dir(1, 0, "root"),
        dir(2, 1, "a"),
        file(3, 2, "x.txt"),
    ]);
    let paths = hash_map_to_paths(&map);
    assert_eq!(paths, vec![strings(&["root", "a", "x.txt"])]);
    assert_eq!(join_path(&paths[0], "/"), "root/a/x.txt");
    assert_eq!(join_path(&paths[0], "\\"), "root\\a\\x.txt");
}

#[test]
fn missing_parent_ends_the_walk() {
    let map = usn_records_to_hash_map(vec![
        dir(2, 1, "a"),
        file(3, 2, "x.txt"),
        file(4, 99, "orphan"),
    ]);
    let paths = sorted(hash_map_to_paths(&map));
    assert_eq!(paths, vec![strings(&["a", "x.txt"]), strings(&["orphan"])]);
}

#[test]
fn directories_give_no_path() {
    let map = usn_records_to_hash_map(vec![dir(1, 0, "root"), dir(2, 1, "a"), dir(3, 2, "b")]);
    assert!(hash_map_to_paths(&map).is_empty());
    assert!(hash_map_to_paths(&usn_records_to_hash_map(vec![])).is_empty());
}

#[test]
fn every_file_gives_one_path() {
    let map = usn_records_to_hash_map(vec![
        file(10, 2, "one"),
        dir(1, 0, "top"),
        file(11, 2, "two"),
        dir(2, 1, "mid"),
        file(12, 1, "three"),
        file(13, 12, "below a file"),
    ]);
    let paths = sorted(hash_map_to_paths(&map));
    assert_eq!(
        paths,
        vec![
            strings(&["top", "mid", "one"]),
            strings(&["top", "mid", "two"]),
            strings(&["top", "three"]),
            strings(&["top", "three", "below a file"]),
        ]
    );
}

#[test]
fn later_record_replaces_earlier_one() {
    let map = usn_records_to_hash_map(vec![
        dir(1, 0, "old"),
        file(3, 1, "first"),
        dir(1, 0, "new"),
        file(3, 1, "second"),
    ]);
    assert_eq!(map.len(), 2);
    assert_eq!(map[&1].filename, "new");
    assert_eq!(map[&3].filename, "second");
    assert_eq!(hash_map_to_paths(&map), vec![strings(&["new", "second"])]);
}

#[test]
fn circle_of_parents_ends_where_it_closes() {
    let map = usn_records_to_hash_map(vec![dir(1, 2, "a"), dir(2, 1, "b"), file(3, 1, "f")]);
    assert_eq!(path_components(&map, 3), strings(&["b", "a", "f"]));
    assert_eq!(path_components(&map, 1), strings(&["b", "a"]));
    assert_eq!(hash_map_to_paths(&map), vec![strings(&["b", "a", "f"])]);
    let own = usn_records_to_hash_map(vec![dir(5, 5, "root"), file(6, 5, "f"), file(7, 7, "g")]);
    assert_eq!(path_components(&own, 6), strings(&["root", "f"]));
    assert_eq!(path_components(&own, 5), strings(&["root"]));
    assert_eq!(path_components(&own, 7), strings(&["g"]));
}

#[test]
fn path_of_a_directory_can_be_asked_for() {
    let map = usn_records_to_hash_map(vec![dir(1, 0, "root"), dir(2, 1, "a")]);
    assert_eq!(path_components(&map, 2), strings(&["root", "a"]));
    assert_eq!(path_components(&map, 1), strings(&["root"]));
}

#[test]
fn joining_puts_the_separator_between_components() {
    assert_eq!(join_path(&strings(&[]), "/"), "");
    assert_eq!(join_path(&strings(&["only"]), "/"), "only");
    assert_eq!(join_path(&strings(&["a", "b", "c"]), "::"), "a::b::c");
    assert_eq!(join_path(&strings(&["", ""]), "/"), "/");
    assert_eq!(join_path(&strings(&["a", "b"]), ""), "ab");
}

#[test]
fn listing_prefixes_the_drive() {
    let list = DirList::new(
        "G:",
        vec![dir(1, 0, "root"), dir(2, 1, "a"), file(3, 2, "x.txt"), file(4, 77, "loose.bin")],
    );
    let mut paths = list.iter().clone();
    paths.sort();
    assert_eq!(paths, vec!["G:\\loose.bin", "G:\\root\\a\\x.txt"]);
    assert!(DirList::new("G:", vec![]).iter().is_empty());
}

#[test]
fn device_is_named_after_the_drive() {
    assert_eq!(device_path("C:"), r"\\.\C:");
    assert_eq!(device_path(""), r"\\.\");
}

#[test]
fn failures_are_told_apart() {
    assert_eq!(classify_open_failure(5), VolumeError::AccessDenied);
    assert_eq!(classify_open_failure(2), VolumeError::DeviceError(2));
    assert_eq!(classify_open_failure(1), VolumeError::DeviceError(1));
    assert_eq!(classify_open_failure(50), VolumeError::DeviceError(50));
    assert_eq!(classify_journal_failure(1), VolumeError::JournalUnsupported);
    assert_eq!(classify_journal_failure(50), VolumeError::JournalUnsupported);
    assert_eq!(classify_journal_failure(1179), VolumeError::DeviceError(1179));
    assert_eq!(classify_journal_failure(5), VolumeError::DeviceError(5));
    assert_eq!(classify_journal_failure(38), VolumeError::DeviceError(38));
}
