//! The inode searcher: finds an existing hardlink partner in the target tree
//! by inode number, keeping an incrementally built inode-to-path index so
//! that repeated searches amortize the cost of re-scanning.
//!
//! An index hit is never trusted as-is: the path must still exist and its
//! inode must still match, and a stale entry is evicted on detection. Names
//! in the ignore set are never descended into, so a search can only ever
//! report files that a walk respecting the ignore set would reach — or a
//! revalidated index entry discovered by an earlier search.

use vstd::prelude::*;

use crate::config::{any_component_ignored, component_ignored};
use crate::fsmodel::Fs;
use crate::paths::{is_prefix_of, FsPath};
use crate::util::{clone_strings, push_deep, remove_deep, set_deep};

verus! {

/// One index entry: an inode and the path it was last seen at.
pub struct IndexEntry {
    pub inode: u64,
    pub path: FsPath,
}

/// The mathematical value of an `IndexEntry`.
pub ghost struct IndexEntryView {
    pub inode: u64,
    pub path: Seq<Seq<char>>,
}

impl View for IndexEntry {
    type V = IndexEntryView;

    open spec fn view(&self) -> IndexEntryView {
        IndexEntryView { inode: self.inode, path: self.path@ }
    }
}

impl DeepView for IndexEntry {
    type V = IndexEntryView;

    open spec fn deep_view(&self) -> IndexEntryView {
        self.view()
    }
}

/// A file is reachable by a walk from `dir` that never enters an ignored
/// name: it sits under `dir` and no component below `dir` is ignored.
pub open spec fn visible_under(
    ignore: Seq<Seq<char>>,
    dir: Seq<Seq<char>>,
    p: Seq<Seq<char>>,
) -> bool {
    is_prefix_of(dir, p) && !component_ignored(ignore, p.subrange(dir.len() as int, p.len() as int))
}

/// The mathematical value of a `PathSearcher`.
pub ghost struct PathSearcherView {
    pub cache: Seq<IndexEntryView>,
    pub ignore: Seq<Seq<char>>,
}

impl PathSearcherView {
    /// Inode keys are unique.
    pub open spec fn wf(self) -> bool {
        forall|i: int, j: int|
            0 <= i < j < self.cache.len() ==> (#[trigger] self.cache[i]).inode != (
            #[trigger] self.cache[j]).inode
    }
}

/// The searcher: the ignore set it walks with, and its inode index.
pub struct PathSearcher {
    pub cache: Vec<IndexEntry>,
    pub ignore: Vec<String>,
}

impl View for PathSearcher {
    type V = PathSearcherView;

    open spec fn view(&self) -> PathSearcherView {
        PathSearcherView { cache: self.cache.deep_view(), ignore: self.ignore.deep_view() }
    }
}

impl PathSearcher {
    /// A searcher with an empty index.
    pub fn new(ignore: &Vec<String>) -> (r: PathSearcher)
        ensures
            r@.wf(),
            r@.cache == Seq::<IndexEntryView>::empty(),
            r@.ignore == ignore.deep_view(),
    {
        let r = PathSearcher { cache: Vec::new(), ignore: clone_strings(ignore) };
        proof {
            assert(r@.cache =~= Seq::<IndexEntryView>::empty());
        }
        r
    }

    /// The index slot holding this inode, if any.
    fn find_inode(&self, inode: u64) -> (r: Option<usize>)
        ensures
            match r {
                Some(i) => i < self@.cache.len() && self@.cache[i as int].inode == inode,
                None => forall|j: int|
                    0 <= j < self@.cache.len() ==> (#[trigger] self@.cache[j]).inode != inode,
            },
    {
        let n: usize = self.cache.len();
        let mut i: usize = 0;
        while i < n
            invariant
                n == self.cache.len(),
                i <= n,
                forall|j: int| 0 <= j < i ==> (#[trigger] self@.cache[j]).inode != inode,
            decreases n - i,
        {
            proof {
                assert(self@.cache[i as int] == self.cache@[i as int].deep_view());
            }
            if self.cache[i].inode == inode {
                return Some(i);
            }
            i = i + 1;
        }
        None
    }

    /// Record where an inode was seen, replacing any earlier sighting.
    fn index_put(&mut self, inode: u64, path: FsPath)
        requires
            old(self)@.wf(),
        ensures
            final(self)@.wf(),
            final(self)@.ignore == old(self)@.ignore,
    {
        match self.find_inode(inode) {
            Some(i) => {
                set_deep(&mut self.cache, i, IndexEntry { inode, path });
                proof {
                    let pre = old(self)@;
                    let post = self@;
                    assert forall|a: int, b: int| 0 <= a < b < post.cache.len() implies (
                    #[trigger] post.cache[a]).inode != (#[trigger] post.cache[b]).inode by {
                        if a != i {
                            assert(post.cache[a] == pre.cache[a]);
                        }
                        if b != i {
                            assert(post.cache[b] == pre.cache[b]);
                        }
                    }
                }
            },
            None => {
                push_deep(&mut self.cache, IndexEntry { inode, path });
                proof {
                    let pre = old(self)@;
                    let post = self@;
                    assert forall|a: int, b: int| 0 <= a < b < post.cache.len() implies (
                    #[trigger] post.cache[a]).inode != (#[trigger] post.cache[b]).inode by {
                        assert(post.cache[a] == pre.cache[a]);
                        if b < post.cache.len() - 1 {
                            assert(post.cache[b] == pre.cache[b]);
                        }
                    }
                }
            },
        }
    }

    /// Find a path in `fs` whose file shares `inode`, looking first at the
    /// index (revalidating any hit) and then scanning the tree under `dir`,
    /// feeding the index with every file seen on the way.
    ///
    /// A `Some` answer always names a live file with the wanted inode. A
    /// `None` answer is exhaustive: no file under `dir` outside the ignored
    /// names has that inode.
    pub fn search(&mut self, fs: &Fs, inode: u64, dir: &FsPath) -> (r: Option<FsPath>)
        requires
            old(self)@.wf(),
            fs@.wf(),
        ensures
            final(self)@.wf(),
            final(self)@.ignore == old(self)@.ignore,
            match r {
                Some(p) => fs@.has_file(p@) && fs@.file_at(p@).inode == inode,
                None => forall|j: int|
                    0 <= j < fs@.files.len() && visible_under(
                        old(self)@.ignore,
                        dir@,
                        (#[trigger] fs@.files[j]).path,
                    ) ==> fs@.files[j].inode != inode,
            },
    {
        // Index probe, revalidated against the live tree.
        match self.find_inode(inode) {
            Some(i) => {
                let cached_alive = fs.is_file(&self.cache[i].path);
                if cached_alive {
                    if fs.inode_of(&self.cache[i].path) == inode {
                        return Some(self.cache[i].path.duplicate());
                    }
                }
                // Stale sighting: evict it.
                remove_deep(&mut self.cache, i);
                proof {
                    let pre = old(self)@;
                    let post = self@;
                    let iv = i as int;
                    assert forall|a: int, b: int| 0 <= a < b < post.cache.len() implies (
                    #[trigger] post.cache[a]).inode != (#[trigger] post.cache[b]).inode by {
                        let a0 = if a < iv { a } else { a + 1 };
                        let b0 = if b < iv { b } else { b + 1 };
                        assert(pre.cache[a0] == post.cache[a]);
                        assert(pre.cache[b0] == post.cache[b]);
                    }
                }
            },
            None => {},
        }
        // Scan the tree under `dir`, skipping ignored names, indexing every
        // file seen.
        let n: usize = fs.files.len();
        let mut j: usize = 0;
        while j < n
            invariant
                self@.wf(),
                self@.ignore == old(self)@.ignore,
                fs@.wf(),
                n == fs.files.len(),
                j <= n,
                forall|m: int|
                    0 <= m < j && visible_under(
                        old(self)@.ignore,
                        dir@,
                        (#[trigger] fs@.files[m]).path,
                    ) ==> fs@.files[m].inode != inode,
            decreases n - j,
        {
            proof {
                assert(fs@.files[j as int] == fs.files@[j as int].deep_view());
            }
            if fs.files[j].path.starts_with(dir) {
                let rel = fs.files[j].path.strip_prefix(dir);
                if !any_component_ignored(&self.ignore, &rel) {
                    let ino_j = fs.files[j].inode;
                    let path_j = fs.files[j].path.duplicate();
                    self.index_put(ino_j, path_j);
                    if ino_j == inode {
                        proof {
                            fs@.lemma_file_index(j as int);
                        }
                        return Some(fs.files[j].path.duplicate());
                    }
                }
            }
            j = j + 1;
        }
        None
    }
}

} // verus!
