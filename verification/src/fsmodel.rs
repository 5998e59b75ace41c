//! An explicit model of the filesystem state the reconciler reads and
//! writes.
//!
//! The model keeps what the reconciliation logic observes and nothing more: a
//! set of regular files, each with its path, its inode number and a content
//! tag (two files are byte-for-byte equal exactly when their tags are equal;
//! hardlinks share an inode and therefore a tag), and a set of directories
//! closed under taking parents. The binary builds this model by scanning the
//! real trees, hands it to the library, and replays the mutations the library
//! performed.

use vstd::prelude::*;

use crate::paths::{is_prefix_of, FsPath};
use crate::util::{push_deep, remove_deep, set_deep};

verus! {

/// One regular file (or one directory entry of a hardlinked inode).
pub struct FileEntry {
    pub path: FsPath,
    pub inode: u64,
    pub content: u64,
}

/// The mathematical value of a `FileEntry`.
pub ghost struct FileEntryView {
    pub path: Seq<Seq<char>>,
    pub inode: u64,
    pub content: u64,
}

impl View for FileEntry {
    type V = FileEntryView;

    open spec fn view(&self) -> FileEntryView {
        FileEntryView { path: self.path@, inode: self.inode, content: self.content }
    }
}

impl DeepView for FileEntry {
    type V = FileEntryView;

    open spec fn deep_view(&self) -> FileEntryView {
        self.view()
    }
}

impl DeepView for FsPath {
    type V = Seq<Seq<char>>;

    open spec fn deep_view(&self) -> Seq<Seq<char>> {
        self.view()
    }
}

/// The mathematical value of the whole filesystem state.
pub ghost struct FsView {
    pub files: Seq<FileEntryView>,
    pub dirs: Seq<Seq<Seq<char>>>,
    pub next_inode: u64,
}

/// How many directory entries share an inode: the inode's hardlink count.
pub open spec fn count_inode(files: Seq<FileEntryView>, ino: u64) -> nat
    decreases files.len(),
{
    if files.len() == 0 {
        0
    } else {
        count_inode(files.drop_last(), ino) + if files.last().inode == ino {
            1nat
        } else {
            0nat
        }
    }
}

impl FsView {
    /// A regular file lives at `p`.
    pub open spec fn has_file(self, p: Seq<Seq<char>>) -> bool {
        exists|i: int| 0 <= i < self.files.len() && self.files[i].path == p
    }

    /// The index of the file at `p`.
    pub open spec fn file_index(self, p: Seq<Seq<char>>) -> int {
        choose|i: int| 0 <= i < self.files.len() && self.files[i].path == p
    }

    /// The file at `p`.
    pub open spec fn file_at(self, p: Seq<Seq<char>>) -> FileEntryView {
        self.files[self.file_index(p)]
    }

    /// A directory lives at `p`.
    pub open spec fn is_dir(self, p: Seq<Seq<char>>) -> bool {
        self.dirs.contains(p)
    }

    /// Something lives at `p`.
    pub open spec fn path_exists(self, p: Seq<Seq<char>>) -> bool {
        self.has_file(p) || self.is_dir(p)
    }

    /// The state is a possible filesystem: paths are unique, nothing is both
    /// a file and a directory, the root is a directory, directories are
    /// closed under parents, files hang under directories, and inode numbers
    /// stay below the allocation cursor.
    pub open spec fn wf(self) -> bool {
        &&& forall|i: int, j: int|
            0 <= i < j < self.files.len() ==> (#[trigger] self.files[i]).path != (
            #[trigger] self.files[j]).path
        &&& forall|i: int, j: int|
            0 <= i < j < self.dirs.len() ==> #[trigger] self.dirs[i] != #[trigger] self.dirs[j]
        &&& forall|i: int|
            0 <= i < self.files.len() ==> !self.dirs.contains((#[trigger] self.files[i]).path)
        &&& forall|i: int| 0 <= i < self.files.len() ==> (#[trigger] self.files[i]).path.len() > 0
        &&& forall|i: int|
            0 <= i < self.files.len() ==> self.dirs.contains(
                (#[trigger] self.files[i]).path.drop_last(),
            )
        &&& self.dirs.contains(Seq::<Seq<char>>::empty())
        &&& forall|i: int, k: int|
            0 <= i < self.dirs.len() && 0 <= k < self.dirs[i].len() ==> self.dirs.contains(
                #[trigger] self.dirs[i].subrange(0, k),
            )
        &&& forall|i: int| 0 <= i < self.files.len() ==> (#[trigger] self.files[i]).inode
            < self.next_inode
    }

    /// With unique paths, any index holding `p` is the file's index.
    pub proof fn lemma_file_index(self, i: int)
        requires
            self.wf(),
            0 <= i < self.files.len(),
        ensures
            self.file_index(self.files[i].path) == i,
            self.file_at(self.files[i].path) == self.files[i],
            self.has_file(self.files[i].path),
    {
        let p = self.files[i].path;
        assert(self.has_file(p));
        let j = self.file_index(p);
        if i < j {
            assert(self.files[i].path != self.files[j].path);
        } else if j < i {
            assert(self.files[j].path != self.files[i].path);
        }
    }
}

/// What can go wrong when the model mutates: exactly the failures the real
/// filesystem calls would report.
#[derive(Clone, Copy, Debug, PartialEq, Eq, Structural)]
pub enum FsError {
    /// A rule's source root does not exist.
    SourceMissing,
    /// A rule's source root is not a directory.
    SourceNotDirectory,
    /// A rule's target root does not exist.
    TargetMissing,
    /// A rule's target root is not a directory.
    TargetNotDirectory,
    /// Creating a directory chain ran into an existing file.
    CreateDirOnFile,
    /// Copying from a path that is not a regular file.
    CopySourceNotFile,
    /// Copying onto a path that is a directory.
    CopyTargetIsDir,
}

/// The filesystem state, as executable data.
pub struct Fs {
    pub files: Vec<FileEntry>,
    pub dirs: Vec<FsPath>,
    pub next_inode: u64,
}

impl View for Fs {
    type V = FsView;

    open spec fn view(&self) -> FsView {
        FsView {
            files: self.files.deep_view(),
            dirs: self.dirs.deep_view(),
            next_inode: self.next_inode,
        }
    }
}

impl Fs {
    /// An empty tree: just the root directory.
    pub fn new() -> (r: Fs)
        ensures
            r@.wf(),
            r@.files == Seq::<FileEntryView>::empty(),
            r@.dirs == seq![Seq::<Seq<char>>::empty()],
            r@.next_inode == 1,
    {
        let mut dirs: Vec<FsPath> = Vec::new();
        push_deep(&mut dirs, FsPath::empty());
        let r = Fs { files: Vec::new(), dirs, next_inode: 1 };
        proof {
            assert(r@.files =~= Seq::<FileEntryView>::empty());
            assert(r@.dirs =~= seq![Seq::<Seq<char>>::empty()]);
            assert(r@.dirs[0] == Seq::<Seq<char>>::empty());
        }
        r
    }

    /// The index of the file at `p`, if one is there.
    pub fn find_file(&self, p: &FsPath) -> (r: Option<usize>)
        ensures
            match r {
                Some(i) => i < self.files@.len() && self.files@[i as int]@.path == p@
                    && self@.has_file(p@),
                None => !self@.has_file(p@),
            },
{
        let n: usize = self.files.len();
        let mut i: usize = 0;
        while i < n
            invariant
                n == self.files.len(),
                i <= n,
                forall|j: int| 0 <= j < i ==> (#[trigger] self@.files[j]).path != p@,
            decreases n - i,
        {
            proof {
                assert(self@.files[i as int] == self.files@[i as int].deep_view());
            }
            if self.files[i].path.path_eq(p) {
                return Some(i);
            }
            i = i + 1;
        }
        None
    }

    /// A regular file lives at `p`.
    pub fn is_file(&self, p: &FsPath) -> (r: bool)
        ensures
            r == self@.has_file(p@),
    {
        self.find_file(p).is_some()
    }

    /// A directory lives at `p`.
    pub fn is_dir(&self, p: &FsPath) -> (r: bool)
        ensures
            r == self@.is_dir(p@),
    {
        let n: usize = self.dirs.len();
        let mut i: usize = 0;
        while i < n
            invariant
                n == self.dirs.len(),
                i <= n,
                forall|j: int| 0 <= j < i ==> #[trigger] self@.dirs[j] != p@,
            decreases n - i,
        {
            proof {
                assert(self@.dirs[i as int] == self.dirs@[i as int].deep_view());
            }
            if self.dirs[i].path_eq(p) {
                return true;
            }
            i = i + 1;
        }
        false
    }

    /// Something lives at `p`.
    pub fn exists_path(&self, p: &FsPath) -> (r: bool)
        ensures
            r == self@.path_exists(p@),
    {
        self.is_file(p) || self.is_dir(p)
    }

    /// The inode of the file at `p`.
    pub fn inode_of(&self, p: &FsPath) -> (r: u64)
        requires
            self@.wf(),
            self@.has_file(p@),
        ensures
            r == self@.file_at(p@).inode,
    {
        let i = self.find_file(p).unwrap();
        proof {
            self@.lemma_file_index(i as int);
        }
        self.files[i].inode
    }

    /// The content tag of the file at `p`.
    pub fn content_of(&self, p: &FsPath) -> (r: u64)
        requires
            self@.wf(),
            self@.has_file(p@),
        ensures
            r == self@.file_at(p@).content,
    {
        let i = self.find_file(p).unwrap();
        proof {
            self@.lemma_file_index(i as int);
        }
        self.files[i].content
    }

    /// The hardlink count of the file at `p`.
    pub fn nlink_of(&self, p: &FsPath) -> (r: usize)
        requires
            self@.wf(),
            self@.has_file(p@),
        ensures
            r == count_inode(self@.files, self@.file_at(p@).inode),
    {
        let idx = self.find_file(p).unwrap();
        proof {
            self@.lemma_file_index(idx as int);
        }
        let ino = self.files[idx].inode;
        let n: usize = self.files.len();
        let mut c: usize = 0;
        let mut i: usize = 0;
        proof {
            assert(self@.files.subrange(0, 0) =~= Seq::<FileEntryView>::empty());
        }
        while i < n
            invariant
                n == self.files.len(),
                i <= n,
                c <= i,
                ino == self@.file_at(p@).inode,
                c == count_inode(self@.files.subrange(0, i as int), ino),
            decreases n - i,
        {
            proof {
                assert(self@.files[i as int] == self.files@[i as int].deep_view());
                assert(self@.files.subrange(0, i + 1 as int).drop_last() =~= self@.files.subrange(
                    0,
                    i as int,
                ));
                assert(self@.files.subrange(0, i + 1 as int).last() == self@.files[i as int]);
            }
            if self.files[i].inode == ino {
                c = c + 1;
            }
            i = i + 1;
        }
        proof {
            assert(self@.files.subrange(0, n as int) =~= self@.files);
        }
        c
    }

    /// Create a fresh file at `p` with newly allocated content; gives back
    /// its inode. This is how scans and tests populate the model.
    pub fn touch(&mut self, p: &FsPath) -> (r: u64)
        requires
            old(self)@.wf(),
            p@.len() > 0,
            !old(self)@.path_exists(p@),
            old(self)@.is_dir(p@.drop_last()),
            old(self)@.next_inode < u64::MAX,
        ensures
            final(self)@.wf(),
            r == old(self)@.next_inode,
            final(self)@.files == old(self)@.files.push(
                FileEntryView { path: p@, inode: r, content: r },
            ),
            final(self)@.dirs == old(self)@.dirs,
            final(self)@.next_inode == old(self)@.next_inode + 1,
    {
        let ino = self.next_inode;
        self.next_inode = self.next_inode + 1;
        let entry = FileEntry { path: p.duplicate(), inode: ino, content: ino };
        push_deep(&mut self.files, entry);
        proof {
            lemma_wf_after_file_push(old(self)@, self@);
        }
        ino
    }

    /// Add one more name for the file at `src`: the two paths then share one
    /// inode and one content.
    pub fn hard_link(&mut self, src: &FsPath, dst: &FsPath)
        requires
            old(self)@.wf(),
            old(self)@.has_file(src@),
            dst@.len() > 0,
            !old(self)@.path_exists(dst@),
            old(self)@.is_dir(dst@.drop_last()),
        ensures
            final(self)@.wf(),
            final(self)@.files == old(self)@.files.push(
                FileEntryView {
                    path: dst@,
                    inode: old(self)@.file_at(src@).inode,
                    content: old(self)@.file_at(src@).content,
                },
            ),
            final(self)@.dirs == old(self)@.dirs,
            final(self)@.next_inode == old(self)@.next_inode,
    {
        let i = self.find_file(src).unwrap();
        proof {
            self@.lemma_file_index(i as int);
        }
        let entry = FileEntry {
            path: dst.duplicate(),
            inode: self.files[i].inode,
            content: self.files[i].content,
        };
        push_deep(&mut self.files, entry);
        proof {
            lemma_wf_after_file_push(old(self)@, self@);
        }
    }

    /// Create the directory at `p`; its parent must already be there and the
    /// path must be free.
    pub fn create_dir(&mut self, p: &FsPath)
        requires
            old(self)@.wf(),
            p@.len() > 0,
            !old(self)@.path_exists(p@),
            old(self)@.is_dir(p@.drop_last()),
        ensures
            final(self)@.wf(),
            final(self)@.files == old(self)@.files,
            final(self)@.dirs == old(self)@.dirs.push(p@),
            final(self)@.next_inode == old(self)@.next_inode,
    {
        push_deep(&mut self.dirs, p.duplicate());
        proof {
            let pre = old(self)@;
            let post = self@;
            let pv = p@;
            assert(post.files == pre.files);
            assert forall|a: int| 0 <= a < post.files.len() implies #[trigger] post.files[a]
                == pre.files[a] by {}
            assert forall|i: int, k: int|
                0 <= i < post.dirs.len() && 0 <= k < post.dirs[i].len() implies post.dirs.contains(
                #[trigger] post.dirs[i].subrange(0, k),
            ) by {
                if i < pre.dirs.len() {
                    assert(post.dirs[i] == pre.dirs[i]);
                    assert(pre.dirs.contains(pre.dirs[i].subrange(0, k)));
                    let w = choose|m: int|
                        0 <= m < pre.dirs.len() && pre.dirs[m] == pre.dirs[i].subrange(0, k);
                    assert(post.dirs[w] == pre.dirs[i].subrange(0, k));
                } else {
                    assert(post.dirs[i] == pv);
                    if k == pv.len() - 1 {
                        assert(pv.subrange(0, k) =~= pv.drop_last());
                        let w = choose|m: int|
                            0 <= m < pre.dirs.len() && pre.dirs[m] == pv.drop_last();
                        assert(post.dirs[w] == pv.drop_last());
                    } else {
                        let parent = pv.drop_last();
                        let w = choose|m: int| 0 <= m < pre.dirs.len() && pre.dirs[m] == parent;
                        assert(pre.dirs[w] == parent);
                        assert(parent.subrange(0, k) =~= pv.subrange(0, k));
                        assert(pre.dirs.contains(pre.dirs[w].subrange(0, k)));
                        let w2 = choose|m: int|
                            0 <= m < pre.dirs.len() && pre.dirs[m] == parent.subrange(0, k);
                        assert(post.dirs[w2] == pv.subrange(0, k));
                    }
                }
            }
            assert forall|i: int, j: int| 0 <= i < j < post.dirs.len() implies #[trigger] post.dirs[i]
                != #[trigger] post.dirs[j] by {
                if j == post.dirs.len() - 1 {
                    assert(post.dirs[j] == pv);
                    assert(post.dirs[i] == pre.dirs[i]);
                    if pre.dirs[i] == pv {
                        assert(pre.dirs.contains(pv));
                    }
                }
            }
            assert forall|i: int| 0 <= i < post.files.len() implies !post.dirs.contains(
                (#[trigger] post.files[i]).path,
            ) by {
                assert(post.files[i] == pre.files[i]);
                if post.dirs.contains(post.files[i].path) {
                    let w = choose|m: int|
                        0 <= m < post.dirs.len() && post.dirs[m] == post.files[i].path;
                    if w < pre.dirs.len() {
                        assert(pre.dirs.contains(pre.files[i].path));
                    } else {
                        assert(pre.has_file(pv));
                    }
                }
            }
            assert forall|i: int| 0 <= i < post.files.len() implies post.dirs.contains(
                (#[trigger] post.files[i]).path.drop_last(),
            ) by {
                assert(post.files[i] == pre.files[i]);
                assert(pre.dirs.contains(pre.files[i].path.drop_last()));
                let w = choose|m: int|
                    0 <= m < pre.dirs.len() && pre.dirs[m] == pre.files[i].path.drop_last();
                assert(post.dirs[w] == pre.files[i].path.drop_last());
            }
            assert(post.dirs.contains(Seq::<Seq<char>>::empty())) by {
                let w = choose|m: int|
                    0 <= m < pre.dirs.len() && pre.dirs[m] == Seq::<Seq<char>>::empty();
                assert(post.dirs[w] == Seq::<Seq<char>>::empty());
            }
        }
    }

    /// Create the directory at `p` and any missing ancestors, as the real
    /// recursive directory creation does. Fails exactly when a file already
    /// sits at `p` or at one of its ancestors.
    pub fn create_dir_all(&mut self, p: &FsPath) -> (r: Result<(), FsError>)
        requires
            old(self)@.wf(),
        ensures
            match r {
                Ok(()) => {
                    &&& final(self)@.wf()
                    &&& final(self)@.files == old(self)@.files
                    &&& final(self)@.next_inode == old(self)@.next_inode
                    &&& forall|q: Seq<Seq<char>>|
                        #[trigger] final(self)@.is_dir(q) <==> old(self)@.is_dir(q) || is_prefix_of(
                            q,
                            p@,
                        )
                    &&& forall|k: int|
                        0 <= k <= p@.len() ==> !old(self)@.has_file(#[trigger] p@.subrange(0, k))
                },
                Err(e) => {
                    &&& e == FsError::CreateDirOnFile
                    &&& final(self)@ == old(self)@
                    &&& exists|k: int|
                        1 <= k <= p@.len() && old(self)@.has_file(#[trigger] p@.subrange(0, k))
                },
            },
    {
        let n: usize = p.len();
        // First pass: refuse if any ancestor (or `p` itself) is a file.
        let mut cur = FsPath::empty();
        let mut k: usize = 0;
        while k < n
            invariant
                self@ == old(self)@,
                self@.wf(),
                n == p@.len(),
                k <= n,
                cur@ == p@.subrange(0, k as int),
                forall|m: int| 0 <= m <= k ==> !self@.has_file(#[trigger] p@.subrange(0, m)),
            decreases n - k,
        {
            proof {
                assert(p@[k as int] == p.components@[k as int].deep_view());
            }
            cur = cur.join(&p.components[k]);
            proof {
                assert(cur@ =~= p@.subrange(0, k + 1 as int));
            }
            if self.is_file(&cur) {
                return Err(FsError::CreateDirOnFile);
            }
            k = k + 1;
        }
        proof {
            assert(p@.subrange(0, 0) =~= Seq::<Seq<char>>::empty());
            assert forall|m: int| 0 <= m <= n implies !self@.has_file(
                #[trigger] p@.subrange(0, m),
            ) by {}
        }
        // Second pass: create what is missing, parents first.
        let mut cur = FsPath::empty();
        let mut k: usize = 0;
        while k < n
            invariant
                self@.wf(),
                n == p@.len(),
                k <= n,
                cur@ == p@.subrange(0, k as int),
                self@.files == old(self)@.files,
                self@.next_inode == old(self)@.next_inode,
                forall|q: Seq<Seq<char>>|
                    #[trigger] self@.dirs.contains(q) <==> old(self)@.dirs.contains(q) || (
                    is_prefix_of(q, p@) && q.len() <= k),
                forall|m: int| 0 <= m <= n ==> !old(self)@.has_file(#[trigger] p@.subrange(0, m)),
            decreases n - k,
        {
            proof {
                assert(p@[k as int] == p.components@[k as int].deep_view());
                assert(is_prefix_of(cur@, p@));
            }
            let next = cur.join(&p.components[k]);
            proof {
                assert(next@ =~= p@.subrange(0, k + 1 as int));
                assert(is_prefix_of(next@, p@));
                assert(next@.drop_last() =~= cur@);
            }
            let ghost mid = self@;
            if !self.is_dir(&next) {
                proof {
                    assert(!self@.has_file(next@)) by {
                        if self@.has_file(next@) {
                            assert(self@.files == old(self)@.files);
                            assert(old(self)@.has_file(p@.subrange(0, k + 1 as int)));
                        }
                    }
                }
                self.create_dir(&next);
                proof {
                    assert forall|q: Seq<Seq<char>>| #[trigger] self@.dirs.contains(q) implies (old(
                        self,
                    )@.dirs.contains(q) || (is_prefix_of(q, p@) && q.len() <= k + 1)) by {
                        let w = choose|m: int| 0 <= m < self@.dirs.len() && self@.dirs[m] == q;
                        if w < mid.dirs.len() {
                            assert(mid.dirs[w] == q);
                            assert(mid.dirs.contains(q));
                        } else {
                            assert(q == next@);
                        }
                    }
                    assert forall|q: Seq<Seq<char>>| (old(self)@.dirs.contains(q) || (is_prefix_of(
                        q,
                        p@,
                    ) && q.len() <= k + 1)) implies #[trigger] self@.dirs.contains(q) by {
                        if mid.dirs.contains(q) {
                            let w = choose|m: int| 0 <= m < mid.dirs.len() && mid.dirs[m] == q;
                            assert(self@.dirs[w] == q);
                        } else {
                            assert(!old(self)@.dirs.contains(q));
                            assert(is_prefix_of(q, p@) && q.len() <= k + 1);
                            if q.len() <= k {
                                assert(mid.dirs.contains(q));
                            }
                            assert(q.len() == k + 1);
                            assert(q == p@.subrange(0, q.len() as int));
                            assert(q == next@);
                            assert(self@.dirs.last() == next@);
                        }
                    }
                }
            } else {
                proof {
                    assert forall|q: Seq<Seq<char>>| #[trigger] self@.dirs.contains(q) <==> (old(
                        self,
                    )@.dirs.contains(q) || (is_prefix_of(q, p@) && q.len() <= k + 1)) by {
                        assert(mid.dirs.contains(q) <==> (old(self)@.dirs.contains(q) || (
                        is_prefix_of(q, p@) && q.len() <= k)));
                        if is_prefix_of(q, p@) && q.len() == k + 1 {
                            assert(q == p@.subrange(0, q.len() as int));
                            assert(q == next@);
                            assert(mid.dirs.contains(next@));
                        }
                    }
                }
            }
            cur = next;
            k = k + 1;
        }
        proof {
            assert forall|q: Seq<Seq<char>>| #[trigger] self@.is_dir(q) <==> (old(self)@.is_dir(q)
                || is_prefix_of(q, p@)) by {
                assert(self@.dirs.contains(q) <==> (old(self)@.dirs.contains(q) || (is_prefix_of(
                    q,
                    p@,
                ) && q.len() <= n)));
                if is_prefix_of(q, p@) {
                    assert(q.len() <= n);
                }
            }
        }
        Ok(())
    }

    /// Copy the file at `src` to `dst`: same content, fresh inode, except
    /// that copying onto an existing file rewrites it in place.
    pub fn copy_file(&mut self, src: &FsPath, dst: &FsPath)
        requires
            old(self)@.wf(),
            old(self)@.has_file(src@),
            dst@.len() > 0,
            !old(self)@.is_dir(dst@),
            old(self)@.is_dir(dst@.drop_last()),
            old(self)@.next_inode < u64::MAX,
        ensures
            final(self)@.wf(),
            final(self)@.dirs == old(self)@.dirs,
            old(self)@.has_file(dst@) ==> {
                &&& final(self)@.files == old(self)@.files.update(
                    old(self)@.file_index(dst@),
                    FileEntryView {
                        path: dst@,
                        inode: old(self)@.file_at(dst@).inode,
                        content: old(self)@.file_at(src@).content,
                    },
                )
                &&& final(self)@.next_inode == old(self)@.next_inode
            },
            !old(self)@.has_file(dst@) ==> {
                &&& final(self)@.files == old(self)@.files.push(
                    FileEntryView {
                        path: dst@,
                        inode: old(self)@.next_inode,
                        content: old(self)@.file_at(src@).content,
                    },
                )
                &&& final(self)@.next_inode == old(self)@.next_inode + 1
            },
    {
        let s = self.find_file(src).unwrap();
        proof {
            self@.lemma_file_index(s as int);
        }
        let content = self.files[s].content;
        match self.find_file(dst) {
            Some(i) => {
                proof {
                    self@.lemma_file_index(i as int);
                }
                let inode = self.files[i].inode;
                let entry = FileEntry { path: dst.duplicate(), inode, content };
                set_deep(&mut self.files, i, entry);
                proof {
                    let pre = old(self)@;
                    let post = final(self)@;
                    assert forall|a: int, b: int| 0 <= a < b < post.files.len() implies (
                    #[trigger] post.files[a]).path != (#[trigger] post.files[b]).path by {
                        assert(pre.files[a].path == post.files[a].path);
                        assert(pre.files[b].path == post.files[b].path);
                    }
                    assert forall|a: int| 0 <= a < post.files.len() implies !post.dirs.contains(
                        (#[trigger] post.files[a]).path,
                    ) && (#[trigger] post.files[a]).path.len() > 0 && post.dirs.contains(
                        (#[trigger] post.files[a]).path.drop_last(),
                    ) && (#[trigger] post.files[a]).inode < post.next_inode by {
                        assert(pre.files[a].path == post.files[a].path);
                        assert(pre.files[a].inode == post.files[a].inode);
                    }
                }
            },
            None => {
                let inode = self.next_inode;
                self.next_inode = self.next_inode + 1;
                let entry = FileEntry { path: dst.duplicate(), inode, content };
                push_deep(&mut self.files, entry);
                proof {
                    lemma_wf_after_file_push(old(self)@, self@);
                }
            },
        }
    }

    /// Delete the file at `p`. Models an external pruning of the tree
    /// between passes.
    pub fn remove_file(&mut self, p: &FsPath)
        requires
            old(self)@.wf(),
            old(self)@.has_file(p@),
        ensures
            final(self)@.wf(),
            final(self)@.files == old(self)@.files.remove(old(self)@.file_index(p@)),
            final(self)@.dirs == old(self)@.dirs,
            final(self)@.next_inode == old(self)@.next_inode,
            !final(self)@.has_file(p@),
            forall|q: Seq<Seq<char>>|
                q != p@ ==> (final(self)@.has_file(q) <==> old(self)@.has_file(q)),
            forall|q: Seq<Seq<char>>|
                q != p@ && old(self)@.has_file(q) ==> final(self)@.file_at(q) == old(
                    self,
                )@.file_at(q),
    {
        let i = self.find_file(p).unwrap();
        proof {
            self@.lemma_file_index(i as int);
        }
        remove_deep(&mut self.files, i);
        proof {
            let pre = old(self)@;
            let post = self@;
            let iv = i as int;
            assert forall|a: int| 0 <= a < post.files.len() implies exists|b: int|
                0 <= b < pre.files.len() && b != iv && pre.files[b] == #[trigger] post.files[a] by {
                if a < iv {
                    assert(pre.files[a] == post.files[a]);
                } else {
                    assert(pre.files[a + 1] == post.files[a]);
                }
            }
            assert forall|a: int, b: int| 0 <= a < b < post.files.len() implies (
            #[trigger] post.files[a]).path != (#[trigger] post.files[b]).path by {
                let a0 = if a < iv { a } else { a + 1 };
                let b0 = if b < iv { b } else { b + 1 };
                assert(pre.files[a0] == post.files[a]);
                assert(pre.files[b0] == post.files[b]);
            }
            assert forall|a: int| 0 <= a < post.files.len() implies !post.dirs.contains(
                (#[trigger] post.files[a]).path,
            ) && (#[trigger] post.files[a]).path.len() > 0 && post.dirs.contains(
                (#[trigger] post.files[a]).path.drop_last(),
            ) && (#[trigger] post.files[a]).inode < post.next_inode by {
                let a0 = if a < iv { a } else { a + 1 };
                assert(pre.files[a0] == post.files[a]);
            }
            assert(!post.has_file(p@)) by {
                if post.has_file(p@) {
                    let w = post.file_index(p@);
                    let w0 = if w < iv { w } else { w + 1 };
                    assert(pre.files[w0] == post.files[w]);
                    pre.lemma_file_index(w0);
                }
            }
            assert forall|q: Seq<Seq<char>>| q != p@ implies (post.has_file(q) <==> pre.has_file(
                q,
            )) by {
                if post.has_file(q) {
                    let w = post.file_index(q);
                    let w0 = if w < iv { w } else { w + 1 };
                    assert(pre.files[w0] == post.files[w]);
                }
                if pre.has_file(q) {
                    let w0 = pre.file_index(q);
                    assert(w0 != iv);
                    let w = if w0 < iv { w0 } else { w0 - 1 };
                    assert(post.files[w] == pre.files[w0]);
                }
            }
            assert forall|q: Seq<Seq<char>>| q != p@ && pre.has_file(q) implies post.file_at(q)
                == pre.file_at(q) by {
                let w0 = pre.file_index(q);
                assert(w0 != iv);
                let w = if w0 < iv { w0 } else { w0 - 1 };
                assert(post.files[w] == pre.files[w0]);
                post.lemma_file_index(w);
                pre.lemma_file_index(w0);
            }
        }
    }
}

/// Pushing a fresh, well-placed file entry keeps the state well-formed.
proof fn lemma_wf_after_file_push(pre: FsView, post: FsView)
    requires
        pre.wf(),
        post.dirs == pre.dirs,
        post.next_inode >= pre.next_inode,
        pre.files.len() < post.files.len(),
        post.files == pre.files.push(post.files.last()),
        post.files.last().path.len() > 0,
        !pre.path_exists(post.files.last().path),
        pre.is_dir(post.files.last().path.drop_last()),
        post.files.last().inode < post.next_inode,
    ensures
        post.wf(),
{
    let e = post.files.last();
    assert forall|i: int, j: int| 0 <= i < j < post.files.len() implies (
    #[trigger] post.files[i]).path != (#[trigger] post.files[j]).path by {
        if j < post.files.len() - 1 {
            assert(pre.files[i] == post.files[i]);
            assert(pre.files[j] == post.files[j]);
        } else {
            assert(pre.files[i] == post.files[i]);
            if post.files[i].path == e.path {
                pre.lemma_file_index(i);
            }
        }
    }
    assert forall|i: int| 0 <= i < post.files.len() implies !post.dirs.contains(
        (#[trigger] post.files[i]).path,
    ) && (#[trigger] post.files[i]).path.len() > 0 && post.dirs.contains(
        (#[trigger] post.files[i]).path.drop_last(),
    ) && (#[trigger] post.files[i]).inode < post.next_inode by {
        if i < post.files.len() - 1 {
            assert(pre.files[i] == post.files[i]);
        } else {
            assert(post.files[i] == e);
        }
    }
}

} // verus!
