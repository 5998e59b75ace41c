//! The extension-keyed walking policy: names in the ignore set are
//! invisible, files with a link extension are hardlinked after the
//! cache-and-search procedure, files with a copy extension are copied, and
//! everything else is left alone.

use vstd::prelude::*;

use crate::config::Basic;
use crate::db::{Link, LinkCache, LinkCacheView};
use crate::fsmodel::{count_inode, Fs, FsView};
use crate::link::{DirOperation, FileOperation, Perm, SymLinkOperation};
use crate::paths::{extension_spec, FsPath};
use crate::runner::cache_ok;
use crate::searcher::{visible_under, PathSearcher};

verus! {

/// The walking policy and the state it consults: the global options, the
/// link cache, and the inode searcher.
pub struct Handler {
    pub basic: Basic,
    pub db: LinkCache,
    pub searcher: PathSearcher,
}

/// A path is hidden when its own name is in the ignore set.
pub open spec fn ignored_name(basic_ignore: Seq<Seq<char>>, p: Seq<Seq<char>>) -> bool {
    p.len() > 0 && basic_ignore.contains(p.last())
}

/// Where the inode fallback searches: the directory the mapped target sits
/// in.
pub open spec fn search_root_spec(target: Seq<Seq<char>>) -> Seq<Seq<char>> {
    if target.len() > 0 {
        target.drop_last()
    } else {
        target
    }
}

/// One cache step of the walking policy: a possible deletion of the source's
/// own record (`db0` to `db1`) followed by one insertion for the source
/// (`db1` to `db2`) touches no foreign record and keeps every vouched-for
/// source vouched for.
pub(crate) proof fn lemma_cache_step_facts(
    fsv: FsView,
    db0: LinkCacheView,
    db1: LinkCacheView,
    db2: LinkCacheView,
    sp: Seq<Seq<char>>,
)
    requires
        db0.wf(),
        db1.wf(),
        db2.wf(),
        !cache_ok(fsv, db0, sp),
        forall|s: Seq<Seq<char>>| #[trigger] db1.has_src(s) ==> db0.has_src(s),
        forall|s: Seq<Seq<char>>|
            s != sp && #[trigger] db0.has_src(s) ==> db1.has_src(s) && db1.record_for(s)
                == db0.record_for(s),
        db2.records.len() == db1.records.len() + 1,
        db2.records == db1.records.push(db2.records.last()),
        db2.records.last().src == sp,
    ensures
        forall|s: Seq<Seq<char>>| #[trigger] cache_ok(fsv, db0, s) ==> cache_ok(fsv, db2, s),
        forall|s: Seq<Seq<char>>| #[trigger] db2.has_src(s) && !db0.has_src(s) ==> s == sp,
        forall|s: Seq<Seq<char>>| db0.has_src(s) && !(#[trigger] db2.has_src(s)) ==> s == sp,
{
    assert forall|s: Seq<Seq<char>>| #[trigger] cache_ok(fsv, db0, s) implies cache_ok(
        fsv,
        db2,
        s,
    ) by {
        let w = choose|i: int|
            0 <= i < db0.records.len() && db0.records[i].src == s && fsv.path_exists(
                db0.records[i].target,
            );
        db0.lemma_record_index(w);
        assert(s != sp);
        assert(db1.has_src(s) && db1.record_for(s) == db0.records[w]);
        let w1 = db1.record_index(s);
        db1.lemma_record_index(w1);
        assert(db2.records[w1] == db1.records[w1]);
    }
    assert forall|s: Seq<Seq<char>>| #[trigger] db2.has_src(s) && !db0.has_src(s) implies s
        == sp by {
        let w = db2.record_index(s);
        if w < db1.records.len() {
            assert(db2.records[w] == db1.records[w]);
            db1.lemma_record_index(w);
        } else {
            assert(db2.records[w] == db2.records.last());
        }
    }
    assert forall|s: Seq<Seq<char>>| db0.has_src(s) && !(#[trigger] db2.has_src(s)) implies s
        == sp by {
        if s != sp {
            assert(db1.has_src(s));
            let w1 = db1.record_index(s);
            db1.lemma_record_index(w1);
            assert(db2.records[w1] == db1.records[w1]);
        }
    }
}

impl Handler {
    /// The cache and the searcher are sound, and the searcher walks with
    /// this handler's ignore set.
    pub open spec fn wf(self) -> bool {
        &&& self.db@.wf()
        &&& self.searcher@.wf()
        &&& self.searcher@.ignore == self.basic.ignore.deep_view()
    }

    /// Whether the path's own name is in the ignore set.
    pub fn should_ignore(&self, path: &FsPath) -> (r: bool)
        ensures
            r == ignored_name(self.basic.ignore.deep_view(), path@),
    {
        if path.len() == 0 {
            return false;
        }
        self.basic.is_ignored_name(path.file_name())
    }

    /// The ownership to apply to created directories and copied files.
    pub fn perm(&self) -> (r: Perm)
        ensures
            r.uid == self.basic.uid,
            r.gid == self.basic.gid,
            r.permissions is None,
    {
        Perm { uid: self.basic.uid, gid: self.basic.gid, permissions: None }
    }

    /// Decide a directory's fate: hidden names are skipped, everything else
    /// is created on the target side and descended into.
    pub fn handle_dir(&self, path: &FsPath, _target: &FsPath) -> (r: DirOperation)
        ensures
            match r {
                DirOperation::Skip => ignored_name(self.basic.ignore.deep_view(), path@),
                DirOperation::Process { perm } => {
                    &&& !ignored_name(self.basic.ignore.deep_view(), path@)
                    &&& perm.uid == self.basic.uid
                    &&& perm.gid == self.basic.gid
                },
            },
    {
        if self.should_ignore(path) {
            DirOperation::Skip
        } else {
            DirOperation::Process { perm: self.perm() }
        }
    }

    /// Decide a symlink's fate: this policy leaves symlinks alone.
    pub fn handle_symlink(&self, _path: &FsPath, _target: &FsPath) -> (r: SymLinkOperation)
        ensures
            r is Skip,
    {
        SymLinkOperation::Skip
    }

    /// Decide a link-extension file's fate, in the reconciler's fixed
    /// order: a revalidated cache record wins (stale ones are deleted), then
    /// an existing target is adopted into the cache and skipped, then a
    /// hardlink partner found by inode is recorded and skipped, and only
    /// when all fail is a fresh link ordered; every decision but the first
    /// leaves a cache record behind.
    pub fn handle_link_file(&mut self, fs: &Fs, src: &FsPath, target: &FsPath) -> (r:
        FileOperation)
        requires
            old(self).wf(),
            fs@.wf(),
            fs@.has_file(src@),
            old(self).db@.next_id < i32::MAX,
        ensures
            final(self).wf(),
            final(self).basic == old(self).basic,
            final(self).searcher@.ignore == old(self).searcher@.ignore,
            final(self).db@.next_id <= old(self).db@.next_id + 1,
            forall|s: Seq<Seq<char>>|
                #[trigger] cache_ok(fs@, old(self).db@, s) ==> cache_ok(fs@, final(self).db@, s),
            forall|s: Seq<Seq<char>>|
                #[trigger] final(self).db@.has_src(s) && !old(self).db@.has_src(s) ==> s == src@,
            forall|s: Seq<Seq<char>>|
                old(self).db@.has_src(s) && !(#[trigger] final(self).db@.has_src(s)) ==> s
                    == src@,
            match r {
                FileOperation::Skip => cache_ok(fs@, final(self).db@, src@),
                FileOperation::Link => {
                    &&& !fs@.path_exists(target@)
                    &&& final(self).db@.has_src(src@)
                    &&& final(self).db@.record_for(src@).target == target@
                },
                FileOperation::Copy { .. } => false,
            },
            cache_ok(fs@, old(self).db@, src@) ==> r is Skip && final(self).db@ == old(self).db@,
            !cache_ok(fs@, old(self).db@, src@) && fs@.path_exists(target@) ==> r is Skip
                && final(self).db@.has_src(src@) && final(self).db@.record_for(src@).target
                == target@,
            (!fs@.path_exists(target@) && !cache_ok(fs@, old(self).db@, src@) && count_inode(
                fs@.files,
                fs@.file_at(src@).inode,
            ) > 1 && (exists|j: int|
                0 <= j < fs@.files.len() && visible_under(
                    old(self).searcher@.ignore,
                    search_root_spec(target@),
                    (#[trigger] fs@.files[j]).path,
                ) && fs@.files[j].inode == fs@.file_at(src@).inode)) ==> r is Skip && final(self).db@.has_src(src@) && fs@.has_file(final(self).db@.record_for(src@).target)
                && fs@.file_at(final(self).db@.record_for(src@).target).inode == fs@.file_at(
                src@,
            ).inode,
    {
        let ghost db0 = self.db@;
        // Cache first: trust only a record whose target is still present,
        // delete a stale one.
        let mut hit = false;
        let mut hit_id: i32 = 0;
        let mut hit_valid = false;
        match Link::from_src(src, &self.db) {
            Some(rec) => {
                hit = true;
                hit_id = rec.id;
                hit_valid = fs.exists_path(&rec.target);
            },
            None => {},
        }
        proof {
            if hit && hit_valid {
                let w = db0.record_index(src@);
                assert(cache_ok(fs@, db0, src@));
            } else {
                assert(!cache_ok(fs@, db0, src@)) by {
                    if cache_ok(fs@, db0, src@) {
                        let w = choose|i: int|
                            0 <= i < db0.records.len() && db0.records[i].src == src@
                                && fs@.path_exists(db0.records[i].target);
                        db0.lemma_record_index(w);
                    }
                }
            }
        }
        if hit {
            if hit_valid {
                return FileOperation::Skip;
            }
            proof {
                let w = db0.record_index(src@);
                db0.lemma_record_index(w);
            }
            Link::delete(hit_id, &mut self.db);
        }
        let ghost db1 = self.db@;
        proof {
            assert(!db1.has_src(src@)) by {
                if hit {
                    assert(db0.record_for(src@).id == hit_id);
                }
            }
            assert forall|s: Seq<Seq<char>>| #[trigger] db1.has_src(s) implies db0.has_src(
                s,
            ) by {}
            assert forall|s: Seq<Seq<char>>| s != src@ && #[trigger] db0.has_src(s) implies
                db1.has_src(s) && db1.record_for(s) == db0.record_for(s) by {
                if hit {
                    let w = db0.record_index(s);
                    db0.lemma_record_index(w);
                    let wsp = db0.record_index(src@);
                    db0.lemma_record_index(wsp);
                    if w < wsp {
                        assert(db0.records[w].id != db0.records[wsp].id);
                    } else {
                        assert(db0.records[wsp].id != db0.records[w].id);
                    }
                }
            }
            assert forall|s: Seq<Seq<char>>| db0.has_src(s) && !(#[trigger] db1.has_src(s))
                implies s == src@ by {
                if hit && s != src@ {
                    assert(db0.record_for(s).id == hit_id);
                    let ws = db0.record_index(s);
                    db0.lemma_record_index(ws);
                    let wsp = db0.record_index(src@);
                    db0.lemma_record_index(wsp);
                    if ws < wsp {
                        assert(db0.records[ws].id != db0.records[wsp].id);
                    } else if wsp < ws {
                        assert(db0.records[wsp].id != db0.records[ws].id);
                    }
                }
            }
        }
        // An existing target satisfies the file, whether or not the inodes
        // agree (a disagreement is only reported upstream); it is adopted
        // into the cache as a repair record.
        if fs.exists_path(target) {
            Link::link(src, target, &mut self.db);
            proof {
                let db2 = self.db@;
                db2.lemma_record_index(db2.records.len() - 1);
                assert(cache_ok(fs@, db2, src@));
                lemma_cache_step_facts(fs@, db0, db1, db2, src@);
            }
            return FileOperation::Skip;
        }
        // Inode fallback: only a file that already has another name can
        // share its inode with something in the target tree.
        let mut found_partner = false;
        if fs.nlink_of(src) > 1 {
            let ino = fs.inode_of(src);
            let search_dir = if target.len() > 0 {
                target.parent()
            } else {
                FsPath::empty()
            };
            proof {
                assert(search_dir@ == search_root_spec(target@));
            }
            match self.searcher.search(fs, ino, &search_dir) {
                Some(found) => {
                    Link::link(src, &found, &mut self.db);
                    found_partner = true;
                    proof {
                        let db2 = self.db@;
                        db2.lemma_record_index(db2.records.len() - 1);
                        assert(cache_ok(fs@, db2, src@));
                        lemma_cache_step_facts(fs@, db0, db1, db2, src@);
                    }
                },
                None => {},
            }
        }
        if found_partner {
            return FileOperation::Skip;
        }
        // No equivalent anywhere: order a fresh link and record it.
        Link::link(src, target, &mut self.db);
        proof {
            let db2 = self.db@;
            db2.lemma_record_index(db2.records.len() - 1);
            lemma_cache_step_facts(fs@, db0, db1, db2, src@);
            // The fallback search cannot have been owed: either the link
            // count ruled it out, or it ran and came back empty-handed.
            if !fs@.path_exists(target@) && !cache_ok(fs@, db0, src@) && count_inode(
                fs@.files,
                fs@.file_at(src@).inode,
            ) > 1 && (exists|j: int|
                0 <= j < fs@.files.len() && visible_under(
                    old(self).searcher@.ignore,
                    search_root_spec(target@),
                    fs@.files[j].path,
                ) && fs@.files[j].inode == fs@.file_at(src@).inode) {
                let j = choose|j: int|
                    0 <= j < fs@.files.len() && visible_under(
                        old(self).searcher@.ignore,
                        search_root_spec(target@),
                        fs@.files[j].path,
                    ) && fs@.files[j].inode == fs@.file_at(src@).inode;
                assert(fs@.files[j].inode != fs@.file_at(src@).inode);
            }
        }
        FileOperation::Link
    }

    /// Decide a file's fate from its name: hidden and extension-less names
    /// are skipped, link extensions go through the hardlink procedure, copy
    /// extensions are copied with this handler's ownership.
    pub fn handle_file(&mut self, fs: &Fs, path: &FsPath, target: &FsPath) -> (r: FileOperation)
        requires
            old(self).wf(),
            fs@.wf(),
            path@.len() > 0,
            fs@.has_file(path@),
            old(self).db@.next_id < i32::MAX,
        ensures
            final(self).wf(),
            final(self).basic == old(self).basic,
            final(self).searcher@.ignore == old(self).searcher@.ignore,
            final(self).db@.next_id <= old(self).db@.next_id + 1,
            forall|s: Seq<Seq<char>>|
                #[trigger] cache_ok(fs@, old(self).db@, s) ==> cache_ok(fs@, final(self).db@, s),
            forall|s: Seq<Seq<char>>|
                #[trigger] final(self).db@.has_src(s) && !old(self).db@.has_src(s) ==> s
                    == path@,
            forall|s: Seq<Seq<char>>|
                old(self).db@.has_src(s) && !(#[trigger] final(self).db@.has_src(s)) ==> s
                    == path@,
            ignored_name(old(self).basic.ignore.deep_view(), path@) ==> r is Skip && final(self).db@ == old(self).db@,
            extension_spec(path@.last()) is None ==> r is Skip && final(self).db@ == old(self).db@,
            (extension_spec(path@.last()) matches Some(e) && !old(self).basic.link_ext.deep_view().contains(e) && !old(self).basic.copy_ext.deep_view().contains(e)) ==> r is Skip
                && final(self).db@ == old(self).db@,
            match r {
                FileOperation::Skip => true,
                FileOperation::Link => {
                    &&& extension_spec(path@.last()) matches Some(e) && old(self).basic.link_ext.deep_view().contains(e)
                    &&& !fs@.path_exists(target@)
                    &&& final(self).db@.has_src(path@)
                    &&& final(self).db@.record_for(path@).target == target@
                },
                FileOperation::Copy { perm } => {
                    &&& extension_spec(path@.last()) matches Some(e) && old(self).basic.copy_ext.deep_view().contains(e) && !old(self).basic.link_ext.deep_view().contains(e)
                    &&& perm.uid == old(self).basic.uid
                    &&& perm.gid == old(self).basic.gid
                    &&& final(self).db@ == old(self).db@
                },
            },
            (extension_spec(path@.last()) matches Some(e) && old(self).basic.link_ext.deep_view().contains(e) && !ignored_name(
                old(self).basic.ignore.deep_view(),
                path@,
            )) ==> (r is Skip ==> cache_ok(fs@, final(self).db@, path@)),
            (extension_spec(path@.last()) matches Some(e) && old(self).basic.link_ext.deep_view().contains(e) && !ignored_name(
                old(self).basic.ignore.deep_view(),
                path@,
            ) && !fs@.path_exists(target@) && !cache_ok(fs@, old(self).db@, path@)
                && count_inode(fs@.files, fs@.file_at(path@).inode) > 1 && (exists|j: int|
                0 <= j < fs@.files.len() && visible_under(
                    old(self).searcher@.ignore,
                    search_root_spec(target@),
                    (#[trigger] fs@.files[j]).path,
                ) && fs@.files[j].inode == fs@.file_at(path@).inode)) ==> r is Skip && fs@.has_file(
                final(self).db@.record_for(path@).target,
            ) && fs@.file_at(final(self).db@.record_for(path@).target).inode == fs@.file_at(
                path@,
            ).inode,
            (extension_spec(path@.last()) matches Some(e) && old(self).basic.copy_ext.deep_view().contains(e) && !old(self).basic.link_ext.deep_view().contains(e) && !ignored_name(
                old(self).basic.ignore.deep_view(),
                path@,
            )) ==> r is Copy,
    {
        if self.should_ignore(path) {
            return FileOperation::Skip;
        }
        let ext = match crate::paths::extension_of(path.file_name().as_str()) {
            Some(e) => e,
            None => {
                return FileOperation::Skip;
            },
        };
        if crate::config::contains_name(&self.basic.link_ext, &ext) {
            return self.handle_link_file(fs, path, target);
        }
        if crate::config::contains_name(&self.basic.copy_ext, &ext) {
            return FileOperation::Copy { perm: self.perm() };
        }
        FileOperation::Skip
    }
}

} // verus!
