use cvv::discover::{DiscoverError, EntryKind, FileEntry, Found, Walk, WalkStep};
use cvv::path::{FilePath, PathPart};

fn path(text: &str) -> FilePath {
    FilePath::new(
        text.split('/')
            .filter(|name| !name.is_empty())
            .map(|name| PathPart::Normal(name.as_bytes().to_vec()))
            .collect(),
    )
}

fn show(path: &FilePath) -> String {
    let mut names = Vec::new();
    for part in &path.parts {
        match part {
            PathPart::Normal(bytes) => names.push(String::from_utf8(bytes.clone()).unwrap()),
            _ => names.push(String::from("?")),
        }
    }
    names.join("/")
}

fn name(text: &str) -> Vec<u8> {
    text.as_bytes().to_vec()
}

fn tree(reversed: bool) -> Walk {
    let mut walk = Walk::new(path("src"));
    let mut top = vec!["z.txt", "d", "link", "socket"];
    if reversed {
        top.reverse();
    }
    for item in top {
        match item {
            "z.txt" => {
                let (at, step) = walk.entry(&name(item), EntryKind::File);
                assert_eq!(show(&at), "src/z.txt");
                assert_eq!(step, WalkStep::Measure);
                walk.measured(7);
            }
            "d" => {
                let (at, step) = walk.entry(&name(item), EntryKind::Directory);
                assert_eq!(show(&at), "src/d");
                assert_eq!(step, WalkStep::Descend);
                assert_eq!(show(walk.listing().unwrap()), "src/d");
                walk.entry(&name("b"), EntryKind::File);
                walk.measured(1);
                walk.entry(&name("empty"), EntryKind::Directory);
                walk.exhausted();
                walk.entry(&name("a"), EntryKind::File);
                walk.measured(2);
                walk.exhausted();
            }
            "link" => {
                assert_eq!(walk.entry(&name(item), EntryKind::Symlink).1, WalkStep::SkipSymlink);
            }
            _ => {
                assert_eq!(walk.entry(&name(item), EntryKind::Other).1, WalkStep::Ignore);
            }
        }
    }
    assert_eq!(show(walk.listing().unwrap()), "src");
    walk.exhausted();
    assert!(walk.listing().is_none());
    walk
}

#[test]
fn a_tree_is_found_whole_and_in_order() {
    let (files, dirs) = FileEntry::discover(&path("src"), Found::Tree(tree(false))).unwrap();
    let found: Vec<(String, String, u64)> = files
        .iter()
        .map(|file| (show(&file.relative_path), show(&file.absolute_path), file.size))
        .collect();
    assert_eq!(
        found,
        vec![
            (String::from("d/a"), String::from("src/d/a"), 2),
            (String::from("d/b"), String::from("src/d/b"), 1),
            (String::from("z.txt"), String::from("src/z.txt"), 7),
        ]
    );
    let dirs: Vec<String> = dirs.iter().map(show).collect();
    assert_eq!(dirs, vec![String::from("d"), String::from("d/empty")]);
}

#[test]
fn the_listing_order_does_not_matter() {
    let (one, one_dirs) = FileEntry::discover(&path("src"), Found::Tree(tree(false))).unwrap();
    let (other, other_dirs) = FileEntry::discover(&path("src"), Found::Tree(tree(true))).unwrap();
    let one: Vec<String> = one.iter().map(|file| show(&file.relative_path)).collect();
    let other: Vec<String> = other.iter().map(|file| show(&file.relative_path)).collect();
    assert_eq!(one, other);
    let one_dirs: Vec<String> = one_dirs.iter().map(show).collect();
    let other_dirs: Vec<String> = other_dirs.iter().map(show).collect();
    assert_eq!(one_dirs, other_dirs);
}

#[test]
fn no_two_files_are_found_in_one_place() {
    let (files, dirs) = FileEntry::discover(&path("src"), Found::Tree(tree(false))).unwrap();
    let mut places: Vec<String> = files.iter().map(|file| show(&file.relative_path)).collect();
    places.extend(dirs.iter().map(show));
    let count = places.len();
    places.sort();
    places.dedup();
    assert_eq!(places.len(), count);
}

#[test]
fn a_single_file_is_found_under_its_name() {
    let (files, dirs) = FileEntry::discover(&path("home/x.bin"), Found::File(42)).unwrap();
    assert_eq!(files.len(), 1);
    assert_eq!(show(&files[0].relative_path), "x.bin");
    assert_eq!(show(&files[0].absolute_path), "home/x.bin");
    assert_eq!(files[0].size, 42);
    assert!(dirs.is_empty());
}

#[test]
fn a_single_file_needs_a_name() {
    let source = FilePath::new(vec![PathPart::Normal(name("a")), PathPart::Parent]);
    let error = FileEntry::discover(&source, Found::File(1)).unwrap_err();
    assert_eq!(error, DiscoverError::NoFileName);
}

#[test]
fn an_empty_tree_holds_nothing() {
    let mut walk = Walk::new(path("src"));
    walk.exhausted();
    let (files, dirs) = FileEntry::discover(&path("src"), Found::Tree(walk)).unwrap();
    assert!(files.is_empty());
    assert!(dirs.is_empty());
}
