use criterion_cbor::{DataDirectory, DirectoryEntry, EntryKind, Search, WalkError};

fn names(parts: &[&str]) -> Vec<String> {
    parts.iter().map(|part| String::from(*part)).collect()
}

fn file(path: &[&str]) -> DirectoryEntry {
    DirectoryEntry::new(names(path), EntryKind::File, false)
}

fn dir(path: &[&str]) -> DirectoryEntry {
    DirectoryEntry::new(names(path), EntryKind::Directory, false)
}

const M1: &str = "measurement_240101120000.cbor";
const METADATA: &str = "benchmark.cbor";

#[test]
fn data_root_below_cargo_root() {
    let search = Search::in_cargo_root("/home/me/project");
    assert_eq!(search.base(), "/home/me/project");
    assert_eq!(search.below(), &names(&["target", "criterion", "data", "main"]));
}

#[test]
fn data_root_below_target_dir() {
    let search = Search::in_target_dir("/tmp/build");
    assert_eq!(search.base(), "/tmp/build");
    assert_eq!(search.below(), &names(&["criterion", "data", "main"]));
}

#[test]
fn find_all_groups_every_directory() {
    let mut iter = Search::in_cargo_root(".").find_all(true);
    assert!(iter.advance(Some(Ok(dir(&["a"])))).is_none());
    assert!(iter.advance(Some(Ok(file(&["a", M1])))).is_none());
    assert!(iter.advance(Some(Ok(file(&["a", METADATA])))).is_none());
    let item = iter.advance(None).unwrap().unwrap();
    assert_eq!(item.path_from_data_root(), &names(&["a"]));
}

#[test]
fn find_all_without_data_root_finds_nothing() {
    let mut iter = Search::in_cargo_root(".").find_all(false);
    assert!(iter.advance(Some(Ok(file(&["a", M1])))).is_none());
    assert!(iter.advance(Some(Ok(file(&["a", METADATA])))).is_none());
    assert!(iter.advance(None).is_none());
}

#[test]
fn data_directory_gives_name_depth_and_path() {
    let entry = dir(&["group", "function"]);
    let directory = DataDirectory::new(&entry).unwrap();
    assert_eq!(directory.dir_name(), "function");
    assert_eq!(directory.depth(), 2);
    assert_eq!(directory.path_from_data_root(), &names(&["group", "function"]));
}

#[test]
fn data_directory_is_a_real_directory_below_the_root() {
    assert!(DataDirectory::new(&file(&["a"])).is_none());
    assert!(DataDirectory::new(&DirectoryEntry::new(names(&["a"]), EntryKind::Other, false))
        .is_none());
    assert!(DataDirectory::new(&DirectoryEntry::new(names(&["a"]), EntryKind::Directory, true))
        .is_none());
    assert!(DataDirectory::new(&DirectoryEntry::new(vec![], EntryKind::Directory, false))
        .is_none());
}

#[test]
fn rejected_directory_is_not_descended_into() {
    let mut iter =
        Search::in_cargo_root(".").find_in_paths(true, |d: DataDirectory| d.dir_name() != "skip");
    let kept = iter.advance(Some(Ok(dir(&["keep"]))));
    assert!(kept.descend);
    assert!(kept.item.is_none());
    let skipped = iter.advance(Some(Ok(dir(&["skip"]))));
    assert!(!skipped.descend);
    assert!(skipped.item.is_none());
}

#[test]
fn files_are_never_put_to_the_predicate() {
    let mut iter = Search::in_cargo_root(".").find_in_paths(true, |_: DataDirectory| false);
    assert!(iter.advance(Some(Ok(file(&["a", M1])))).descend);
    assert!(iter.advance(Some(Ok(file(&["a", METADATA])))).descend);
    let last = iter.advance(None);
    assert!(last.descend);
    let unit = last.item.unwrap().unwrap();
    assert_eq!(unit.path_from_data_root(), &names(&["a"]));
}

#[test]
fn rejected_directory_does_not_end_the_unit_before_it() {
    let mut iter = Search::in_cargo_root(".")
        .find_in_paths(true, |d: DataDirectory| d.depth() == 1 && d.dir_name() == "a");
    assert!(iter.advance(Some(Ok(dir(&["a"])))).descend);
    assert!(iter.advance(Some(Ok(file(&["a", M1])))).item.is_none());
    assert!(iter.advance(Some(Ok(file(&["a", METADATA])))).item.is_none());
    let pruned = iter.advance(Some(Ok(dir(&["a", "deeper"]))));
    assert!(!pruned.descend);
    assert!(pruned.item.is_none());
    let other = iter.advance(Some(Ok(dir(&["b"]))));
    assert!(!other.descend);
    assert!(other.item.is_none());
    let last = iter.advance(None);
    assert_eq!(last.item.unwrap().unwrap().path_from_data_root(), &names(&["a"]));
}

#[test]
fn predicate_sees_each_directory_on_the_way_down() {
    let seen = std::cell::RefCell::new(Vec::new());
    let mut iter = Search::in_cargo_root(".").find_in_paths(true, |d: DataDirectory| {
        seen.borrow_mut().push((d.depth(), String::from(d.dir_name())));
        true
    });
    iter.advance(Some(Ok(dir(&["a"]))));
    iter.advance(Some(Ok(dir(&["a", "b"]))));
    iter.advance(Some(Ok(file(&["a", "b", M1]))));
    iter.advance(Some(Ok(dir(&["a", "b", "c"]))));
    assert_eq!(
        seen.into_inner(),
        vec![(1, String::from("a")), (2, String::from("b")), (3, String::from("c"))]
    );
}

#[test]
fn link_that_looks_like_a_directory_is_reported() {
    let mut iter = Search::in_cargo_root(".").find_in_paths(true, |_: DataDirectory| false);
    let link = DirectoryEntry::new(names(&["a"]), EntryKind::Directory, true);
    let step = iter.advance(Some(Ok(link)));
    assert!(step.descend);
    assert!(matches!(step.item, Some(Err(WalkError::Layout(_)))));
}
