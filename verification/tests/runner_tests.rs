use medialink::config::Basic;
use medialink::db::{Link, LinkCache};
use medialink::fsmodel::{Fs, FsError};
use medialink::paths::FsPath;
use medialink::runner::{run_on, Ctx, Op, Outcome};
use medialink::searcher::PathSearcher;

fn p(parts: &[&str]) -> FsPath {
    FsPath { components: parts.iter().map(|s| s.to_string()).collect() }
}

fn names(parts: &[&str]) -> Vec<String> {
    parts.iter().map(|s| s.to_string()).collect()
}

fn basic(ignore: &[&str], media: &[&str]) -> Basic {
    Basic {
        ignore: names(ignore),
        link_ext: Vec::new(),
        copy_ext: Vec::new(),
        media_ext: names(media),
        uid: None,
        gid: None,
    }
}

fn ctx(ignore: &[&str], media: &[&str], dry_run: bool) -> Ctx {
    Ctx {
        basic: basic(ignore, media),
        src: p(&["src"]),
        target: p(&["target"]),
        relative: FsPath::empty(),
        dry_run,
    }
}

fn fresh_world(ignore: &[&str]) -> (Fs, LinkCache, PathSearcher) {
    let mut fs = Fs::new();
    fs.create_dir_all(&p(&["src"])).unwrap();
    fs.create_dir_all(&p(&["target"])).unwrap();
    (fs, LinkCache::new(), PathSearcher::new(&names(ignore)))
}

fn fs_op_count(ops: &[Op]) -> usize {
    ops.iter()
        .filter(|op| {
            matches!(
                op,
                Op::CreateDirAll { .. } | Op::HardLink { .. } | Op::CopyFile { .. }
                    | Op::SetPerm { .. }
            )
        })
        .count()
}

#[test]
fn scenario_first_pass_links_media_and_copies_sidecar() {
    // A media file and its subtitle directly under the source root.
    let (mut fs, mut cache, mut searcher) = fresh_world(&[]);
    let media_ino = fs.touch(&p(&["src", "S01E01.mkv"]));
    let srt_ino = fs.touch(&p(&["src", "S01E01.srt"]));
    let mut ops: Vec<Op> = Vec::new();
    let c = ctx(&[], &["mkv"], false);
    let reports = run_on(&mut fs, &mut cache, &mut searcher, &c, &mut ops).unwrap();
    assert_eq!(reports.len(), 2);
    // The media file gained its stem-named subdirectory and a hardlink.
    let ideal = p(&["target", "S01E01", "S01E01.mkv"]);
    assert!(fs.is_file(&ideal));
    assert_eq!(fs.inode_of(&ideal), media_ino);
    // The subtitle was copied beside it: same bytes, its own inode.
    let side = p(&["target", "S01E01", "S01E01.srt"]);
    assert!(fs.is_file(&side));
    assert_ne!(fs.inode_of(&side), srt_ino);
    assert_eq!(fs.content_of(&side), fs.content_of(&p(&["src", "S01E01.srt"])));
    // One cache record, for the media file.
    assert_eq!(cache.len(), 1);
    let rec = Link::from_src(&p(&["src", "S01E01.mkv"]), &cache).unwrap();
    assert!(rec.target.path_eq(&ideal));
}

#[test]
fn scenario_second_pass_is_idle() {
    let (mut fs, mut cache, mut searcher) = fresh_world(&[]);
    fs.touch(&p(&["src", "S01E01.mkv"]));
    fs.touch(&p(&["src", "S01E01.srt"]));
    let c = ctx(&[], &["mkv"], false);
    let mut ops: Vec<Op> = Vec::new();
    run_on(&mut fs, &mut cache, &mut searcher, &c, &mut ops).unwrap();
    let files_after_first = fs.files.len();
    let cache_after_first = cache.len();
    let ops_after_first = ops.len();
    let reports = run_on(&mut fs, &mut cache, &mut searcher, &c, &mut ops).unwrap();
    // The cache lookup short-circuits: nothing is touched, no operation is
    // performed.
    assert_eq!(ops.len(), ops_after_first);
    assert_eq!(fs.files.len(), files_after_first);
    assert_eq!(cache.len(), cache_after_first);
    for rep in &reports {
        assert!(rep.outcome == Outcome::CacheValid || rep.outcome == Outcome::NotMedia);
    }
}

#[test]
fn nested_file_mirrors_its_relative_path() {
    let (mut fs, mut cache, mut searcher) = fresh_world(&[]);
    fs.create_dir_all(&p(&["src", "Show", "Season 1"])).unwrap();
    let ino = fs.touch(&p(&["src", "Show", "Season 1", "ep.mkv"]));
    let c = ctx(&[], &["mkv"], false);
    let mut ops: Vec<Op> = Vec::new();
    run_on(&mut fs, &mut cache, &mut searcher, &c, &mut ops).unwrap();
    let ideal = p(&["target", "Show", "Season 1", "ep.mkv"]);
    assert!(fs.is_file(&ideal));
    assert_eq!(fs.inode_of(&ideal), ino);
    assert_eq!(fs.nlink_of(&ideal), 2);
}

#[test]
fn dedup_two_names_one_physical_file() {
    // The same episode filed under two source names, hardlinked.
    let (mut fs, mut cache, mut searcher) = fresh_world(&[]);
    fs.create_dir_all(&p(&["src", "A"])).unwrap();
    fs.create_dir_all(&p(&["src", "B"])).unwrap();
    let ino = fs.touch(&p(&["src", "A", "ep.mkv"]));
    fs.hard_link(&p(&["src", "A", "ep.mkv"]), &p(&["src", "B", "ep.mkv"]));
    let c = ctx(&[], &["mkv"], false);
    let mut ops: Vec<Op> = Vec::new();
    let reports = run_on(&mut fs, &mut cache, &mut searcher, &c, &mut ops).unwrap();
    assert_eq!(reports.len(), 2);
    // Exactly one physical file for that content in the target tree.
    let in_target_with_ino = fs
        .files
        .iter()
        .filter(|e| e.path.starts_with(&p(&["target"])) && e.inode == ino)
        .count();
    assert_eq!(in_target_with_ino, 1);
    // The cache holds two records, one per source name, both pointing at
    // that single target.
    assert_eq!(cache.len(), 2);
    let ra = Link::from_src(&p(&["src", "A", "ep.mkv"]), &cache).unwrap();
    let rb = Link::from_src(&p(&["src", "B", "ep.mkv"]), &cache).unwrap();
    assert!(fs.is_file(&ra.target));
    assert!(fs.is_file(&rb.target));
    assert_eq!(fs.inode_of(&ra.target), ino);
    assert_eq!(fs.inode_of(&rb.target), ino);
}

#[test]
fn ignored_names_produce_no_artifacts() {
    let (mut fs, mut cache, mut searcher) = fresh_world(&["Sample"]);
    fs.create_dir_all(&p(&["src", "Sample"])).unwrap();
    fs.touch(&p(&["src", "Sample", "ep.mkv"]));
    fs.create_dir_all(&p(&["src", "Show", "Sample"])).unwrap();
    fs.touch(&p(&["src", "Show", "Sample", "deep.mkv"]));
    fs.touch(&p(&["src", "Show", "ignored.mkv"]));
    let files_before = fs.files.len();
    let dirs_before = fs.dirs.len();
    let c = Ctx {
        basic: basic(&["Sample", "ignored.mkv"], &["mkv"]),
        src: p(&["src"]),
        target: p(&["target"]),
        relative: FsPath::empty(),
        dry_run: false,
    };
    let mut ops: Vec<Op> = Vec::new();
    run_on(&mut fs, &mut cache, &mut searcher, &c, &mut ops).unwrap();
    // Nothing under an ignored name, at any depth, left a trace.
    assert_eq!(fs.files.len(), files_before);
    assert_eq!(fs.dirs.len(), dirs_before);
    assert_eq!(cache.len(), 0);
    assert_eq!(ops.len(), 0);
}

#[test]
fn cache_repair_recreates_a_pruned_target() {
    let (mut fs, mut cache, mut searcher) = fresh_world(&[]);
    fs.touch(&p(&["src", "S01E01.mkv"]));
    let c = ctx(&[], &["mkv"], false);
    let mut ops: Vec<Op> = Vec::new();
    run_on(&mut fs, &mut cache, &mut searcher, &c, &mut ops).unwrap();
    let ideal = p(&["target", "S01E01", "S01E01.mkv"]);
    assert!(fs.is_file(&ideal));
    // The target is pruned externally between passes.
    fs.remove_file(&ideal);
    let reports = run_on(&mut fs, &mut cache, &mut searcher, &c, &mut ops).unwrap();
    assert_eq!(reports.len(), 1);
    // The stale record was deleted and the link recreated at the ideal path.
    assert!(reports[0].stale_deleted);
    assert_eq!(reports[0].outcome, Outcome::Created);
    assert!(fs.is_file(&ideal));
    assert_eq!(cache.len(), 1);
}

#[test]
fn existing_ideal_target_is_adopted_into_the_cache() {
    let (mut fs, mut cache, mut searcher) = fresh_world(&[]);
    fs.touch(&p(&["src", "S01E01.mkv"]));
    // Someone already placed a different file at the ideal path.
    fs.create_dir_all(&p(&["target", "S01E01"])).unwrap();
    fs.touch(&p(&["target", "S01E01", "S01E01.mkv"]));
    let files_before = fs.files.len();
    let c = ctx(&[], &["mkv"], false);
    let mut ops: Vec<Op> = Vec::new();
    let reports = run_on(&mut fs, &mut cache, &mut searcher, &c, &mut ops).unwrap();
    assert_eq!(reports[0].outcome, Outcome::IdealExists);
    assert!(reports[0].inode_mismatch);
    assert_eq!(fs.files.len(), files_before);
    assert_eq!(cache.len(), 1);
}

#[test]
fn dry_run_plans_but_touches_nothing() {
    let (mut fs, mut cache, mut searcher) = fresh_world(&[]);
    fs.touch(&p(&["src", "S01E01.mkv"]));
    fs.touch(&p(&["src", "S01E01.srt"]));
    let files_before = fs.files.len();
    let c = ctx(&[], &["mkv"], true);
    let mut ops: Vec<Op> = Vec::new();
    let reports = run_on(&mut fs, &mut cache, &mut searcher, &c, &mut ops).unwrap();
    assert_eq!(reports[0].outcome, Outcome::Created);
    assert_eq!(fs.files.len(), files_before);
    // The rehearsal also suppresses the cache insert: no record, no
    // operation at all.
    assert_eq!(cache.len(), 0);
    assert_eq!(ops.len(), 0);
    assert_eq!(fs_op_count(&ops), 0);
}

#[test]
fn error_when_a_file_blocks_the_parent_chain() {
    let (mut fs, mut cache, mut searcher) = fresh_world(&[]);
    fs.touch(&p(&["src", "S01E01.mkv"]));
    // A plain file already named like the stem subdirectory.
    fs.touch(&p(&["target", "S01E01"]));
    let c = ctx(&[], &["mkv"], false);
    let mut ops: Vec<Op> = Vec::new();
    let r = run_on(&mut fs, &mut cache, &mut searcher, &c, &mut ops);
    assert_eq!(r.unwrap_err(), FsError::CreateDirOnFile);
}

#[test]
fn error_when_a_sidecar_sibling_is_a_directory() {
    let (mut fs, mut cache, mut searcher) = fresh_world(&[]);
    fs.touch(&p(&["src", "S01E01.mkv"]));
    fs.create_dir_all(&p(&["src", "S01E01.srt"])).unwrap();
    let c = ctx(&[], &["mkv"], false);
    let mut ops: Vec<Op> = Vec::new();
    let r = run_on(&mut fs, &mut cache, &mut searcher, &c, &mut ops);
    assert_eq!(r.unwrap_err(), FsError::CopySourceNotFile);
}

#[test]
fn error_when_a_sidecar_target_is_a_directory() {
    let (mut fs, mut cache, mut searcher) = fresh_world(&[]);
    fs.touch(&p(&["src", "S01E01.mkv"]));
    fs.touch(&p(&["src", "S01E01.srt"]));
    fs.create_dir_all(&p(&["target", "S01E01", "S01E01.srt"])).unwrap();
    // The ideal media path itself is still free, so the link goes through
    // and the sidecar copy is what fails.
    let c = ctx(&[], &["mkv"], false);
    let mut ops: Vec<Op> = Vec::new();
    let r = run_on(&mut fs, &mut cache, &mut searcher, &c, &mut ops);
    assert_eq!(r.unwrap_err(), FsError::CopyTargetIsDir);
}

#[test]
fn error_when_source_root_is_missing() {
    let mut fs = Fs::new();
    fs.create_dir_all(&p(&["target"])).unwrap();
    let mut cache = LinkCache::new();
    let mut searcher = PathSearcher::new(&names(&[]));
    let c = ctx(&[], &["mkv"], false);
    let mut ops: Vec<Op> = Vec::new();
    let r = run_on(&mut fs, &mut cache, &mut searcher, &c, &mut ops);
    assert_eq!(r.unwrap_err(), FsError::SourceMissing);
}

#[test]
fn error_when_source_root_is_a_file() {
    let mut fs = Fs::new();
    fs.create_dir_all(&p(&["target"])).unwrap();
    fs.touch(&p(&["src"]));
    let mut cache = LinkCache::new();
    let mut searcher = PathSearcher::new(&names(&[]));
    let c = ctx(&[], &["mkv"], false);
    let mut ops: Vec<Op> = Vec::new();
    let r = run_on(&mut fs, &mut cache, &mut searcher, &c, &mut ops);
    assert_eq!(r.unwrap_err(), FsError::SourceNotDirectory);
}

#[test]
fn non_media_files_are_left_alone() {
    let (mut fs, mut cache, mut searcher) = fresh_world(&[]);
    fs.touch(&p(&["src", "notes.txt"]));
    let files_before = fs.files.len();
    let c = ctx(&[], &["mkv"], false);
    let mut ops: Vec<Op> = Vec::new();
    let reports = run_on(&mut fs, &mut cache, &mut searcher, &c, &mut ops).unwrap();
    assert_eq!(reports[0].outcome, Outcome::NotMedia);
    assert_eq!(fs.files.len(), files_before);
    assert_eq!(ops.len(), 0);
}

#[test]
fn ops_log_replays_the_first_scenario() {
    let (mut fs, mut cache, mut searcher) = fresh_world(&[]);
    fs.touch(&p(&["src", "S01E01.mkv"]));
    fs.touch(&p(&["src", "S01E01.srt"]));
    let c = ctx(&[], &["mkv"], false);
    let mut ops: Vec<Op> = Vec::new();
    run_on(&mut fs, &mut cache, &mut searcher, &c, &mut ops).unwrap();
    // Parent creation, the hardlink, the cache record, the sidecar copy.
    assert_eq!(ops.len(), 4);
    assert!(matches!(ops[0], Op::CreateDirAll { .. }));
    assert!(matches!(ops[1], Op::HardLink { .. }));
    assert!(matches!(ops[2], Op::CacheInsert { .. }));
    assert!(matches!(ops[3], Op::CopyFile { .. }));
}
