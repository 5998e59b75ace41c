use medialink::paths::{extension_of, name_with_extension, stem_of, FsPath};

fn p(parts: &[&str]) -> FsPath {
    FsPath { components: parts.iter().map(|s| s.to_string()).collect() }
}

#[test]
fn extension_of_plain_media_name() {
    assert_eq!(extension_of("S01E01.mkv"), Some("mkv".to_string()));
}

#[test]
fn extension_of_multiple_dots_takes_last() {
    assert_eq!(extension_of("a.b.c"), Some("c".to_string()));
}

#[test]
fn extension_of_dotfile_is_none() {
    assert_eq!(extension_of(".hidden"), None);
}

#[test]
fn extension_of_no_dot_is_none() {
    assert_eq!(extension_of("noext"), None);
}

#[test]
fn extension_of_trailing_dot_is_empty() {
    assert_eq!(extension_of("a."), Some(String::new()));
}

#[test]
fn stem_of_plain_media_name() {
    assert_eq!(stem_of("S01E01.mkv"), "S01E01".to_string());
}

#[test]
fn stem_of_dotfile_is_whole_name() {
    assert_eq!(stem_of(".hidden"), ".hidden".to_string());
}

#[test]
fn stem_of_no_dot_is_whole_name() {
    assert_eq!(stem_of("noext"), "noext".to_string());
}

#[test]
fn stem_of_trailing_dot() {
    assert_eq!(stem_of("a."), "a".to_string());
}

#[test]
fn name_with_extension_swaps_suffix() {
    assert_eq!(name_with_extension("ep.mkv", "srt"), "ep.srt".to_string());
}

#[test]
fn name_with_extension_on_extensionless_name() {
    assert_eq!(name_with_extension("ep", "nfo"), "ep.nfo".to_string());
}

#[test]
fn path_eq_and_neq() {
    assert!(p(&["a", "b"]).path_eq(&p(&["a", "b"])));
    assert!(!p(&["a", "b"]).path_eq(&p(&["a", "c"])));
    assert!(!p(&["a"]).path_eq(&p(&["a", "b"])));
}

#[test]
fn starts_with_prefixes() {
    assert!(p(&["a", "b", "c"]).starts_with(&p(&["a", "b"])));
    assert!(p(&["a", "b"]).starts_with(&p(&["a", "b"])));
    assert!(p(&["a", "b"]).starts_with(&FsPath::empty()));
    assert!(!p(&["a", "b"]).starts_with(&p(&["b"])));
    assert!(!p(&["a"]).starts_with(&p(&["a", "b"])));
}

#[test]
fn strip_prefix_leaves_the_tail() {
    let rest = p(&["a", "b", "c"]).strip_prefix(&p(&["a"]));
    assert!(rest.path_eq(&p(&["b", "c"])));
}

#[test]
fn join_concat_parent_file_name() {
    let base = p(&["root"]);
    let joined = base.join(&"leaf".to_string());
    assert!(joined.path_eq(&p(&["root", "leaf"])));
    let cat = base.concat(&p(&["x", "y"]));
    assert!(cat.path_eq(&p(&["root", "x", "y"])));
    assert!(cat.parent().path_eq(&p(&["root", "x"])));
    assert_eq!(cat.file_name(), &"y".to_string());
}

#[test]
fn with_extension_replaces_last_component_suffix() {
    let q = p(&["dir", "ep.mkv"]).with_extension("srt");
    assert!(q.path_eq(&p(&["dir", "ep.srt"])));
}
