use medialink::db::{Link, LinkCache};
use medialink::fsmodel::Fs;
use medialink::paths::FsPath;
use medialink::searcher::PathSearcher;

fn p(parts: &[&str]) -> FsPath {
    FsPath { components: parts.iter().map(|s| s.to_string()).collect() }
}

fn names(parts: &[&str]) -> Vec<String> {
    parts.iter().map(|s| s.to_string()).collect()
}

#[test]
fn search_finds_a_hardlink_partner() {
    let mut fs = Fs::new();
    fs.create_dir_all(&p(&["src"])).unwrap();
    fs.create_dir_all(&p(&["target", "d"])).unwrap();
    let ino = fs.touch(&p(&["src", "f"]));
    fs.hard_link(&p(&["src", "f"]), &p(&["target", "d", "g"]));
    let mut s = PathSearcher::new(&names(&[]));
    let hit = s.search(&fs, ino, &p(&["target"])).unwrap();
    assert!(hit.path_eq(&p(&["target", "d", "g"])));
}

#[test]
fn search_misses_when_no_partner_exists() {
    let mut fs = Fs::new();
    fs.create_dir_all(&p(&["target"])).unwrap();
    fs.touch(&p(&["target", "other"]));
    let mut s = PathSearcher::new(&names(&[]));
    assert!(s.search(&fs, 999, &p(&["target"])).is_none());
}

#[test]
fn search_never_reports_from_ignored_directories() {
    let mut fs = Fs::new();
    fs.create_dir_all(&p(&["src"])).unwrap();
    fs.create_dir_all(&p(&["target", "Sample"])).unwrap();
    let ino = fs.touch(&p(&["src", "f"]));
    fs.hard_link(&p(&["src", "f"]), &p(&["target", "Sample", "g"]));
    let mut s = PathSearcher::new(&names(&["Sample"]));
    assert!(s.search(&fs, ino, &p(&["target"])).is_none());
}

#[test]
fn search_index_hit_is_revalidated_after_pruning() {
    let mut fs = Fs::new();
    fs.create_dir_all(&p(&["src"])).unwrap();
    fs.create_dir_all(&p(&["target"])).unwrap();
    let ino = fs.touch(&p(&["src", "f"]));
    fs.hard_link(&p(&["src", "f"]), &p(&["target", "g"]));
    let mut s = PathSearcher::new(&names(&[]));
    assert!(s.search(&fs, ino, &p(&["target"])).is_some());
    // The partner disappears; the stale index entry must not be trusted.
    fs.remove_file(&p(&["target", "g"]));
    assert!(s.search(&fs, ino, &p(&["target"])).is_none());
    // A new partner appears and is found again.
    fs.hard_link(&p(&["src", "f"]), &p(&["target", "h"]));
    let hit = s.search(&fs, ino, &p(&["target"])).unwrap();
    assert!(hit.path_eq(&p(&["target", "h"])));
}

#[test]
fn cache_roundtrip_lookup_insert_delete() {
    let mut c = LinkCache::new();
    assert!(Link::from_src(&p(&["src", "a"]), &c).is_none());
    Link::link(&p(&["src", "a"]), &p(&["target", "a"]), &mut c);
    let rec = Link::from_src(&p(&["src", "a"]), &c).unwrap();
    assert!(rec.src.path_eq(&p(&["src", "a"])));
    assert!(rec.target.path_eq(&p(&["target", "a"])));
    let id = rec.id;
    Link::delete(id, &mut c);
    assert!(Link::from_src(&p(&["src", "a"]), &c).is_none());
    assert_eq!(c.len(), 0);
}

#[test]
fn cache_keeps_one_record_per_source() {
    let mut c = LinkCache::new();
    Link::link(&p(&["s", "a"]), &p(&["t", "a"]), &mut c);
    Link::link(&p(&["s", "b"]), &p(&["t", "b"]), &mut c);
    assert_eq!(c.len(), 2);
    let ra = Link::from_src(&p(&["s", "a"]), &c).unwrap();
    let rb = Link::from_src(&p(&["s", "b"]), &c).unwrap();
    assert_ne!(ra.id, rb.id);
}

#[test]
fn deleting_a_missing_id_is_not_an_error() {
    let mut c = LinkCache::new();
    Link::link(&p(&["s", "a"]), &p(&["t", "a"]), &mut c);
    Link::delete(4242, &mut c);
    assert_eq!(c.len(), 1);
}
