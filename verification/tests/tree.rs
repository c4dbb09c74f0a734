//! Tests of the folder-tree builder: splitting on `/`, first-seen sibling
//! order, merged folders, and full names.
use nintendo_sarc::{Sarc, SarcFile, SarcFolder};

fn file(name: &str, data: &[u8]) -> SarcFile {
    SarcFile { name: name.to_string(), data: data.to_vec() }
}

fn leaves(folder: &SarcFolder) -> usize {
    folder.files.len() + folder.folders.iter().map(|f| leaves(f)).sum::<usize>()
}

#[test]
fn push_attaches_plain_name_as_leaf() {
    let mut root = SarcFolder::default();
    root.push(file("readme.txt", b"r"));
    assert_eq!(root.files.len(), 1);
    assert_eq!(root.files[0].name, "readme.txt");
    assert!(root.folders.is_empty());
}

#[test]
fn push_splits_on_each_separator() {
    let mut root = SarcFolder::default();
    root.push(file("a/b/c.txt", b"deep"));
    assert_eq!(root.files.len(), 0);
    assert_eq!(root.folders.len(), 1);
    let a = &root.folders[0];
    assert_eq!(a.name, "a");
    assert_eq!(a.full_name, "a");
    let b = &a.folders[0];
    assert_eq!(b.name, "b");
    assert_eq!(b.full_name, "a/b");
    assert_eq!(b.files[0].name, "c.txt");
    assert_eq!(b.files[0].data, b"deep");
}

#[test]
fn push_merges_folders_and_keeps_first_seen_order() {
    let mut root = SarcFolder::default();
    root.push(file("x/one", b"1"));
    root.push(file("y/two", b"2"));
    root.push(file("x/three", b"3"));
    assert_eq!(root.folders.len(), 2);
    assert_eq!(root.folders[0].name, "x");
    assert_eq!(root.folders[1].name, "y");
    assert_eq!(root.folders[0].files.len(), 2);
    assert_eq!(root.folders[0].files[0].name, "one");
    assert_eq!(root.folders[0].files[1].name, "three");
    assert_eq!(root.folders[1].files[0].name, "two");
}

#[test]
fn one_leaf_per_input_file() {
    let archive = Sarc {
        files: vec![
            file("a/b/c", b"1"),
            file("a/b/d", b"2"),
            file("a/e", b"3"),
            file("f", b"4"),
            file("a/b/c", b"5"),
        ],
    };
    let count = archive.files.len();
    let tree = archive.into_folder();
    assert_eq!(leaves(&tree), count);
}

#[test]
fn one_folder_per_unique_proper_prefix() {
    let archive = Sarc {
        files: vec![file("a/b/c", b"1"), file("a/b/d", b"2"), file("a/e", b"3"), file("f", b"4")],
    };
    let tree = archive.into_folder();
    // Unique proper prefixes: "a" and "a/b".
    fn folders(folder: &SarcFolder) -> usize {
        folder.folders.len() + folder.folders.iter().map(|f| folders(f)).sum::<usize>()
    }
    assert_eq!(folders(&tree), 2);
    assert_eq!(tree.folders[0].full_name, "a");
    assert_eq!(tree.folders[0].folders[0].full_name, "a/b");
}

#[test]
fn into_folder_root_is_nameless() {
    let tree = Sarc { files: vec![file("only", b"")] }.into_folder();
    assert_eq!(tree.name, "");
    assert_eq!(tree.full_name, "");
    assert_eq!(tree.files.len(), 1);
}
