use medialink::fsmodel::{Fs, FsError};
use medialink::paths::FsPath;

fn p(parts: &[&str]) -> FsPath {
    FsPath { components: parts.iter().map(|s| s.to_string()).collect() }
}

fn fresh() -> Fs {
    Fs::new()
}

#[test]
fn new_tree_has_only_the_root() {
    let fs = fresh();
    assert!(fs.is_dir(&FsPath::empty()));
    assert!(fs.files.is_empty());
}

#[test]
fn touch_creates_a_file_with_fresh_inode() {
    let mut fs = fresh();
    fs.create_dir_all(&p(&["src"])).unwrap();
    let ino = fs.touch(&p(&["src", "a.mkv"]));
    assert!(fs.is_file(&p(&["src", "a.mkv"])));
    assert_eq!(fs.inode_of(&p(&["src", "a.mkv"])), ino);
    assert_eq!(fs.nlink_of(&p(&["src", "a.mkv"])), 1);
}

#[test]
fn hard_link_shares_inode_and_content() {
    let mut fs = fresh();
    fs.create_dir_all(&p(&["a"])).unwrap();
    fs.create_dir_all(&p(&["b"])).unwrap();
    let ino = fs.touch(&p(&["a", "f"]));
    fs.hard_link(&p(&["a", "f"]), &p(&["b", "g"]));
    assert_eq!(fs.inode_of(&p(&["b", "g"])), ino);
    assert_eq!(fs.content_of(&p(&["b", "g"])), fs.content_of(&p(&["a", "f"])));
    assert_eq!(fs.nlink_of(&p(&["a", "f"])), 2);
}

#[test]
fn create_dir_all_builds_the_whole_chain() {
    let mut fs = fresh();
    fs.create_dir_all(&p(&["x", "y", "z"])).unwrap();
    assert!(fs.is_dir(&p(&["x"])));
    assert!(fs.is_dir(&p(&["x", "y"])));
    assert!(fs.is_dir(&p(&["x", "y", "z"])));
}

#[test]
fn create_dir_all_over_a_file_fails() {
    let mut fs = fresh();
    fs.create_dir_all(&p(&["x"])).unwrap();
    fs.touch(&p(&["x", "y"]));
    assert_eq!(fs.create_dir_all(&p(&["x", "y", "z"])), Err(FsError::CreateDirOnFile));
    // Nothing was half-created.
    assert!(!fs.is_dir(&p(&["x", "y"])));
    assert!(!fs.is_dir(&p(&["x", "y", "z"])));
}

#[test]
fn copy_file_gives_fresh_inode_same_content() {
    let mut fs = fresh();
    fs.create_dir_all(&p(&["d"])).unwrap();
    let ino = fs.touch(&p(&["d", "a"]));
    fs.copy_file(&p(&["d", "a"]), &p(&["d", "b"]));
    assert_ne!(fs.inode_of(&p(&["d", "b"])), ino);
    assert_eq!(fs.content_of(&p(&["d", "b"])), fs.content_of(&p(&["d", "a"])));
}

#[test]
fn copy_file_onto_existing_file_rewrites_in_place() {
    let mut fs = fresh();
    fs.create_dir_all(&p(&["d"])).unwrap();
    fs.touch(&p(&["d", "a"]));
    fs.touch(&p(&["d", "b"]));
    let b_ino = fs.inode_of(&p(&["d", "b"]));
    fs.copy_file(&p(&["d", "a"]), &p(&["d", "b"]));
    assert_eq!(fs.inode_of(&p(&["d", "b"])), b_ino);
    assert_eq!(fs.content_of(&p(&["d", "b"])), fs.content_of(&p(&["d", "a"])));
}

#[test]
fn remove_file_deletes_one_name_only() {
    let mut fs = fresh();
    fs.create_dir_all(&p(&["d"])).unwrap();
    fs.touch(&p(&["d", "a"]));
    fs.hard_link(&p(&["d", "a"]), &p(&["d", "b"]));
    fs.remove_file(&p(&["d", "a"]));
    assert!(!fs.is_file(&p(&["d", "a"])));
    assert!(fs.is_file(&p(&["d", "b"])));
    assert_eq!(fs.nlink_of(&p(&["d", "b"])), 1);
}
