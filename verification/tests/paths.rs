use cvv::engine::tmp_path_for;
use cvv::order::sorted_order;
use cvv::path::{FilePath, PathPart};

fn path(text: &str) -> FilePath {
    let mut parts = Vec::new();
    let mut rest = text;
    if let Some(below) = text.strip_prefix('/') {
        parts.push(PathPart::Root);
        rest = below;
    }
    for name in rest.split('/').filter(|name| !name.is_empty()) {
        parts.push(match name {
            "." => PathPart::Current,
            ".." => PathPart::Parent,
            _ => PathPart::Normal(name.as_bytes().to_vec()),
        });
    }
    FilePath::new(parts)
}

fn show(path: &FilePath) -> String {
    let mut out = Vec::new();
    for part in &path.parts {
        out.push(match part {
            PathPart::Prefix(bytes) => format!("{}|", String::from_utf8(bytes.clone()).unwrap()),
            PathPart::Root => String::from("<root>"),
            PathPart::Current => String::from("."),
            PathPart::Parent => String::from(".."),
            PathPart::Normal(bytes) => String::from_utf8(bytes.clone()).unwrap(),
        });
    }
    out.join("/")
}

#[test]
fn joining_appends_below_the_base() {
    assert_eq!(show(&path("/a/b").join(&path("c/d"))), "<root>/a/b/c/d");
    assert_eq!(show(&path("").join(&path("c"))), "c");
    assert_eq!(show(&path("/a").join(&path(""))), "<root>/a");
}

#[test]
fn joining_a_rooted_path_replaces_the_base() {
    assert_eq!(show(&path("/a/b").join(&path("/c"))), "<root>/c");
    let drive = FilePath::new(vec![
        PathPart::Prefix(b"C:".to_vec()),
        PathPart::Root,
        PathPart::Normal(b"x".to_vec()),
    ]);
    assert_eq!(show(&drive.join(&path("/c"))), "C:|/<root>/c");
    assert_eq!(show(&path("/a").join(&drive)), "C:|/<root>/x");
}

#[test]
fn joining_drops_a_leading_current_directory() {
    assert_eq!(show(&path("a").join(&path("./b"))), "a/b");
    assert_eq!(show(&path("").join(&path("./b"))), "./b");
}

#[test]
fn stripping_undoes_joining() {
    let base = path("/mnt/x");
    let below = path("d/e.txt");
    let back = base.join(&below).strip_prefix(&base).unwrap();
    assert_eq!(show(&back), "d/e.txt");
    assert!(base.strip_prefix(&path("/mnt/y")).is_none());
    assert!(base.strip_prefix(&path("/mnt/x/longer")).is_none());
    assert_eq!(show(&base.strip_prefix(&base).unwrap()), "");
}

#[test]
fn file_names_are_the_last_normal_component() {
    assert_eq!(path("/a/b.txt").file_name().unwrap(), b"b.txt");
    assert!(path("/").file_name().is_none());
    assert!(path("a/..").file_name().is_none());
    assert!(path("").file_name().is_none());
}

#[test]
fn temporary_paths_lie_beside_the_destination() {
    assert_eq!(show(&tmp_path_for(&path("/d/a.bin"))), "<root>/d/a.bin.tmp");
    assert_eq!(show(&tmp_path_for(&path("a"))), "a.tmp");
    assert_eq!(show(&tmp_path_for(&path("a/.."))), "a/../.tmp");
    assert_eq!(show(&tmp_path_for(&path(""))), ".tmp");
}

#[test]
fn different_destinations_have_different_temporary_paths() {
    assert_ne!(show(&tmp_path_for(&path("/d/a"))), show(&tmp_path_for(&path("/e/a"))));
    assert_ne!(show(&tmp_path_for(&path("/d/a"))), show(&tmp_path_for(&path("/d/b"))));
    assert_ne!(show(&tmp_path_for(&path("/d/a"))), show(&path("/d/a")));
}

#[test]
fn paths_are_ordered_by_component() {
    assert!(path("a/z").precedes(&path("ab")));
    assert!(!path("ab").precedes(&path("a/z")));
    assert!(path("a").precedes(&path("a/b")));
    assert!(!path("a").precedes(&path("a")));
    assert!(path("/a").precedes(&path("a")));
    assert!(path("../a").precedes(&path("a")));
    assert!(path("B").precedes(&path("a")));
}

#[test]
fn the_order_of_paths_is_that_of_the_system() {
    let texts = ["a", "a/b", "a.b", "ab", "/a", "../a", "z/a", "z", "z/a/b", "B", "é", "a/é", ""];
    for one in texts {
        for other in texts {
            let expected = std::path::Path::new(one) < std::path::Path::new(other);
            assert_eq!(path(one).precedes(&path(other)), expected, "{one} {other}");
        }
    }
}

#[test]
fn sorting_is_stable() {
    let keys = vec![path("b"), path("a"), path("b"), path("a/x"), path("a")];
    assert_eq!(sorted_order(&keys), vec![1, 4, 3, 0, 2]);
    assert_eq!(sorted_order(&Vec::new()), Vec::<usize>::new());
}
