//! Paths and sets of paths.

use std::path::{Component, Path};
use warp_file_watcher::path::{FilePath, PathPart};
use warp_file_watcher::path_set::PathSet;

fn path(text: &str) -> FilePath {
    FilePath::from_unix(text.as_bytes())
}

/// Texts that are read as paths in many ways.
fn samples() -> Vec<&'static str> {
    vec![
        "",
        "/",
        "//",
        ".",
        "..",
        "./",
        "/.",
        "/..",
        "./.",
        "a",
        "a/",
        "./a",
        "a/.",
        "a/..",
        "a/./b",
        "a//b",
        "/a",
        "/a/b",
        "/a//b/",
        "/a/./b",
        "/a/../b",
        "/a/bc",
        "/a/b/c",
        "../a",
        ".hidden",
        "a/...",
    ]
}

#[test]
fn path_components_are_normalized() {
    assert_eq!(path("/a//b/./c/"), path("/a/b/c"));
    assert_eq!(path("/a").parts().len(), 2);
    assert_eq!(path("/a").parts()[0], b"/".to_vec());
    assert_eq!(path("/a").parts()[1], b"a".to_vec());
    assert_eq!(path("./a").parts()[0], b".".to_vec());
    assert_eq!(path("").parts().len(), 0);
}

#[test]
fn paths_are_equal_as_the_standard_library_has_it() {
    for left in samples() {
        for right in samples() {
            let expected = Path::new(left) == Path::new(right);
            assert_eq!(path(left).same(&path(right)), expected, "{} {}", left, right);
            assert_eq!(path(left) == path(right), expected, "{} {}", left, right);
        }
    }
}

#[test]
fn prefixes_are_as_the_standard_library_has_them() {
    for left in samples() {
        for right in samples() {
            let expected = Path::new(left).starts_with(Path::new(right));
            assert_eq!(path(left).starts_with(&path(right)), expected, "{} {}", left, right);
        }
    }
}

#[test]
fn parents_are_as_the_standard_library_has_them() {
    for text in samples() {
        match Path::new(text).parent() {
            Some(parent) => {
                let expected = path(parent.to_str().unwrap());
                assert_eq!(path(text).parent(), Some(expected), "{}", text);
            }
            None => assert_eq!(path(text).parent(), None, "{}", text),
        }
    }
}

#[test]
fn children_are_as_the_standard_library_has_them() {
    for child in samples() {
        for parent in samples() {
            let expected = Path::new(child).parent() == Some(Path::new(parent));
            assert_eq!(path(child).is_child_of(&path(parent)), expected, "{} {}", child, parent);
        }
    }
}

#[test]
fn file_names_are_as_the_standard_library_has_them() {
    for text in samples() {
        let expected = Path::new(text).file_name().map(|name| name.to_str().unwrap().as_bytes());
        let name = path(text);
        assert_eq!(name.file_name().map(|bytes| bytes.as_slice()), expected, "{}", text);
    }
}

fn part(component: Component) -> PathPart {
    match component {
        Component::Prefix(prefix) => {
            PathPart::Prefix(prefix.as_os_str().as_encoded_bytes().to_vec())
        }
        Component::RootDir => PathPart::Root,
        Component::CurDir => PathPart::Current,
        Component::ParentDir => PathPart::Parent,
        Component::Normal(name) => PathPart::Name(name.as_encoded_bytes().to_vec()),
    }
}

#[test]
fn components_are_as_the_standard_library_has_them() {
    for text in samples() {
        let parts: Vec<PathPart> = Path::new(text).components().map(part).collect();
        assert_eq!(FilePath::from_parts(&parts), path(text), "{}", text);
        assert_eq!(path(text).components(), parts, "{}", text);
    }
}

#[test]
fn a_drive_is_a_component_of_its_own() {
    let name = |text: &str| PathPart::Name(text.as_bytes().to_vec());
    let drive = || PathPart::Prefix(b"C:".to_vec());
    let file = FilePath::from_parts(&vec![drive(), PathPart::Root, name("a"), name("b")]);
    let dir = FilePath::from_parts(&vec![drive(), PathPart::Root, name("a")]);
    let root = FilePath::from_parts(&vec![drive(), PathPart::Root]);
    let bare = FilePath::from_parts(&vec![drive()]);
    let relative = FilePath::from_parts(&vec![drive(), name("a")]);
    assert_eq!(file.parent(), Some(dir.clone()));
    assert_eq!(dir.parent(), Some(root.clone()));
    assert_eq!(root.parent(), None);
    assert_eq!(bare.parent(), None);
    assert_eq!(relative.parent(), Some(bare.clone()));
    assert!(file.starts_with(&bare));
    assert!(!file.starts_with(&relative));
    assert!(file.is_child_of(&dir));
    assert_eq!(file.file_name(), Some(&b"b".to_vec()));
    assert_eq!(root.file_name(), None);
    assert_eq!(bare.file_name(), None);
    assert_eq!(
        file.components(),
        vec![drive(), PathPart::Root, name("a"), name("b")]
    );
}

#[test]
fn paths_need_not_be_text() {
    let odd = FilePath::from_unix(&[47, 255, 254, 47, 97]);
    assert_eq!(odd.parts().len(), 3);
    assert_eq!(odd.parent(), Some(FilePath::from_unix(&[47, 255, 254])));
}

#[test]
fn components_survive_a_copy() {
    let first = path("/a/b");
    assert_eq!(first.clone(), first);
    assert_eq!(&first.to_parts(), first.parts());
}

#[test]
fn a_path_lies_below_its_parent() {
    let child = path("/a/b/c");
    let parent = child.parent().unwrap();
    assert!(child.starts_with(&parent));
    let above = parent.parent().unwrap();
    assert!(parent.starts_with(&above));
    assert!(child.starts_with(&above));
    assert!(!above.starts_with(&child));
}

#[test]
fn a_set_holds_each_path_once() {
    let mut set = PathSet::new();
    assert!(set.is_empty());
    assert!(set.insert(path("/a")));
    assert!(set.insert(path("/b")));
    assert!(!set.insert(path("/a/")));
    assert_eq!(set.len(), 2);
    assert_eq!(set.get(0), &path("/a"));
    assert_eq!(set.get(1), &path("/b"));
    assert_eq!(set.position(&path("/b")), Some(1));
    assert_eq!(set.position(&path("/c")), None);
    assert!(set.contains(&path("/a")));

    let copy = set.clone();
    assert!(set.remove(&path("/a")));
    assert!(!set.remove(&path("/a")));
    assert!(!set.contains(&path("/a")));
    assert_eq!(set.position(&path("/b")), Some(0));
    assert_eq!(copy.len(), 2);
    assert!(copy.contains(&path("/a")));

    set.clear();
    assert!(set.is_empty());
    assert!(!set.contains(&path("/b")));
}

#[test]
fn a_large_set_finds_all_its_paths() {
    let mut set = PathSet::new();
    for i in 0..500 {
        assert!(set.insert(path(&format!("/dir{}/file{}", i % 7, i))));
    }
    for i in 0..500 {
        assert!(set.contains(&path(&format!("/dir{}/file{}", i % 7, i))));
    }
    for i in 0..250 {
        assert!(set.remove(&path(&format!("/dir{}/file{}", i % 7, i))));
    }
    assert_eq!(set.len(), 250);
    assert!(!set.contains(&path("/dir0/file0")));
    assert!(set.contains(&path("/dir2/file499")));
}
