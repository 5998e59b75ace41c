use medialink::cli::Cli;
use medialink::config::{Basic, Config, Rule};
use medialink::db::{Link, LinkCache};
use medialink::fsmodel::{Fs, FsError};
use medialink::handler::Handler;
use medialink::link::{DirOperation, FileOperation, SymLinkOperation};
use medialink::orchestrator::{debounce_ready, on_trigger, watch_roots, Trigger};
use medialink::paths::FsPath;
use medialink::runner::{is_media, Op};
use medialink::searcher::PathSearcher;

fn p(parts: &[&str]) -> FsPath {
    FsPath { components: parts.iter().map(|s| s.to_string()).collect() }
}

fn names(parts: &[&str]) -> Vec<String> {
    parts.iter().map(|s| s.to_string()).collect()
}

fn handler(ignore: &[&str], link_ext: &[&str], copy_ext: &[&str]) -> Handler {
    Handler {
        basic: Basic {
            ignore: names(ignore),
            link_ext: names(link_ext),
            copy_ext: names(copy_ext),
            media_ext: Vec::new(),
            uid: Some(1000),
            gid: Some(1000),
        },
        db: LinkCache::new(),
        searcher: PathSearcher::new(&names(ignore)),
    }
}

fn rule() -> Rule {
    Rule { src: p(&["src"]), target: p(&["target"]) }
}

#[test]
fn run_rule_links_and_copies_by_extension() {
    let mut fs = Fs::new();
    fs.create_dir_all(&p(&["src", "Show"])).unwrap();
    fs.create_dir_all(&p(&["target"])).unwrap();
    let mkv_ino = fs.touch(&p(&["src", "Show", "ep.mkv"]));
    let srt_ino = fs.touch(&p(&["src", "Show", "ep.srt"]));
    fs.touch(&p(&["src", "Show", "notes.txt"]));
    let mut h = handler(&[], &["mkv"], &["srt"]);
    let mut ops: Vec<Op> = Vec::new();
    Cli::run_rule(&mut h, &mut fs, &rule(), &mut ops).unwrap();
    // The directory was mirrored.
    assert!(fs.is_dir(&p(&["target", "Show"])));
    // The link extension got a hardlink, the copy extension a copy, the
    // rest nothing.
    assert_eq!(fs.inode_of(&p(&["target", "Show", "ep.mkv"])), mkv_ino);
    assert!(fs.is_file(&p(&["target", "Show", "ep.srt"])));
    assert_ne!(fs.inode_of(&p(&["target", "Show", "ep.srt"])), srt_ino);
    assert_eq!(
        fs.content_of(&p(&["target", "Show", "ep.srt"])),
        fs.content_of(&p(&["src", "Show", "ep.srt"]))
    );
    assert!(!fs.is_file(&p(&["target", "Show", "notes.txt"])));
    // The hardlink is recorded in the cache.
    assert_eq!(h.db.len(), 1);
}

#[test]
fn run_rule_skips_ignored_subtrees() {
    let mut fs = Fs::new();
    fs.create_dir_all(&p(&["src", "Sample"])).unwrap();
    fs.create_dir_all(&p(&["target"])).unwrap();
    fs.touch(&p(&["src", "Sample", "ep.mkv"]));
    let mut h = handler(&["Sample"], &["mkv"], &[]);
    let mut ops: Vec<Op> = Vec::new();
    Cli::run_rule(&mut h, &mut fs, &rule(), &mut ops).unwrap();
    assert!(!fs.is_dir(&p(&["target", "Sample"])));
    assert!(!fs.is_file(&p(&["target", "Sample", "ep.mkv"])));
}

#[test]
fn run_rule_errors_without_roots() {
    let mut fs = Fs::new();
    let mut h = handler(&[], &["mkv"], &[]);
    let mut ops: Vec<Op> = Vec::new();
    assert_eq!(
        Cli::run_rule(&mut h, &mut fs, &rule(), &mut ops).unwrap_err(),
        FsError::SourceMissing
    );
    fs.create_dir_all(&p(&["src"])).unwrap();
    assert_eq!(
        Cli::run_rule(&mut h, &mut fs, &rule(), &mut ops).unwrap_err(),
        FsError::TargetMissing
    );
    fs.touch(&p(&["target"]));
    assert_eq!(
        Cli::run_rule(&mut h, &mut fs, &rule(), &mut ops).unwrap_err(),
        FsError::TargetNotDirectory
    );
}

#[test]
fn run_rule_errors_on_file_source_root() {
    let mut fs = Fs::new();
    fs.touch(&p(&["src"]));
    fs.create_dir_all(&p(&["target"])).unwrap();
    let mut h = handler(&[], &["mkv"], &[]);
    let mut ops: Vec<Op> = Vec::new();
    assert_eq!(
        Cli::run_rule(&mut h, &mut fs, &rule(), &mut ops).unwrap_err(),
        FsError::SourceNotDirectory
    );
}

#[test]
fn run_rule_adopts_existing_targets_into_the_cache() {
    let mut fs = Fs::new();
    fs.create_dir_all(&p(&["src"])).unwrap();
    fs.create_dir_all(&p(&["target"])).unwrap();
    fs.touch(&p(&["src", "ep.mkv"]));
    // Someone already placed a file at the mapped path.
    fs.touch(&p(&["target", "ep.mkv"]));
    let files_before = fs.files.len();
    let mut h = handler(&[], &["mkv"], &[]);
    let mut ops: Vec<Op> = Vec::new();
    Cli::run_rule(&mut h, &mut fs, &rule(), &mut ops).unwrap();
    // Nothing was created, and the existing target was adopted as a repair
    // record.
    assert_eq!(fs.files.len(), files_before);
    assert_eq!(h.db.len(), 1);
    let rec = Link::from_src(&p(&["src", "ep.mkv"]), &h.db).unwrap();
    assert!(rec.target.path_eq(&p(&["target", "ep.mkv"])));
    // A rerun trusts the record and leaves the store alone.
    Cli::run_rule(&mut h, &mut fs, &rule(), &mut ops).unwrap();
    assert_eq!(h.db.len(), 1);
}

#[test]
fn rerun_skips_already_linked_files() {
    let mut fs = Fs::new();
    fs.create_dir_all(&p(&["src"])).unwrap();
    fs.create_dir_all(&p(&["target"])).unwrap();
    fs.touch(&p(&["src", "ep.mkv"]));
    let mut h = handler(&[], &["mkv"], &[]);
    let mut ops: Vec<Op> = Vec::new();
    Cli::run_rule(&mut h, &mut fs, &rule(), &mut ops).unwrap();
    let files_after_first = fs.files.len();
    Cli::run_rule(&mut h, &mut fs, &rule(), &mut ops).unwrap();
    assert_eq!(fs.files.len(), files_after_first);
}

#[test]
fn should_ignore_looks_at_the_last_name() {
    let h = handler(&["Sample"], &[], &[]);
    assert!(h.should_ignore(&p(&["a", "Sample"])));
    assert!(!h.should_ignore(&p(&["Sample", "a"])));
    assert!(!h.should_ignore(&FsPath::empty()));
}

#[test]
fn perm_carries_the_configured_ownership() {
    let h = handler(&[], &[], &[]);
    let perm = h.perm();
    assert_eq!(perm.uid, Some(1000));
    assert_eq!(perm.gid, Some(1000));
    assert!(perm.permissions.is_none());
}

#[test]
fn handle_dir_skips_only_ignored_names() {
    let h = handler(&["Sample"], &[], &[]);
    assert!(matches!(
        h.handle_dir(&p(&["x", "Sample"]), &p(&["t", "Sample"])),
        DirOperation::Skip
    ));
    assert!(matches!(
        h.handle_dir(&p(&["x", "Show"]), &p(&["t", "Show"])),
        DirOperation::Process { .. }
    ));
}

#[test]
fn handle_file_dispatches_on_extension() {
    let mut fs = Fs::new();
    fs.create_dir_all(&p(&["src"])).unwrap();
    fs.create_dir_all(&p(&["target"])).unwrap();
    fs.touch(&p(&["src", "a.mkv"]));
    fs.touch(&p(&["src", "b.srt"]));
    fs.touch(&p(&["src", "c.txt"]));
    fs.touch(&p(&["src", "noext"]));
    let mut h = handler(&[], &["mkv"], &["srt"]);
    assert!(matches!(
        h.handle_file(&fs, &p(&["src", "a.mkv"]), &p(&["target", "a.mkv"])),
        FileOperation::Link
    ));
    assert!(matches!(
        h.handle_file(&fs, &p(&["src", "b.srt"]), &p(&["target", "b.srt"])),
        FileOperation::Copy { .. }
    ));
    assert!(matches!(
        h.handle_file(&fs, &p(&["src", "c.txt"]), &p(&["target", "c.txt"])),
        FileOperation::Skip
    ));
    assert!(matches!(
        h.handle_file(&fs, &p(&["src", "noext"]), &p(&["target", "noext"])),
        FileOperation::Skip
    ));
}

#[test]
fn handle_symlink_always_skips() {
    let h = handler(&[], &[], &[]);
    assert!(matches!(
        h.handle_symlink(&p(&["src", "x"]), &p(&["target", "x"])),
        SymLinkOperation::Skip
    ));
}

#[test]
fn is_media_checks_the_extension_set() {
    assert!(is_media(&p(&["src", "a.mkv"]), &names(&["mkv", "mp4"])));
    assert!(!is_media(&p(&["src", "a.avi"]), &names(&["mkv", "mp4"])));
    assert!(!is_media(&p(&["src", "noext"]), &names(&["mkv"])));
}

#[test]
fn every_trigger_runs_a_pass_and_only_config_rebuilds() {
    let c = on_trigger(&Trigger::ConfigChanged);
    assert!(c.run_pass && c.reload_rules && c.reconnect_store && c.rebuild_watches);
    let f = on_trigger(&Trigger::FsChanged);
    assert!(f.run_pass && !f.reload_rules && !f.reconnect_store && !f.rebuild_watches);
    let t = on_trigger(&Trigger::Timer);
    assert!(t.run_pass && !t.reload_rules && !t.reconnect_store && !t.rebuild_watches);
}

#[test]
fn watch_roots_lists_one_source_per_rule() {
    let config = Config {
        db_url: "links.db".to_string(),
        basic: Basic {
            ignore: Vec::new(),
            link_ext: Vec::new(),
            copy_ext: Vec::new(),
            media_ext: names(&["mkv"]),
            uid: None,
            gid: None,
        },
        rule: vec![
            Rule { src: p(&["a"]), target: p(&["ta"]) },
            Rule { src: p(&["b"]), target: p(&["tb"]) },
        ],
    };
    let roots = watch_roots(&config);
    assert_eq!(roots.len(), 2);
    assert!(roots[0].path_eq(&p(&["a"])));
    assert!(roots[1].path_eq(&p(&["b"])));
}

#[test]
fn debounce_waits_for_the_quiet_interval() {
    assert!(!debounce_ready(100, 104, 5));
    assert!(debounce_ready(100, 105, 5));
    assert!(debounce_ready(100, 200, 5));
    assert!(!debounce_ready(100, 90, 5));
}
