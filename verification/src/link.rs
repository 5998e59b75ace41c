//! The generic tree-walking vocabulary: what may be done with a file, a
//! directory or a symlink met during a walk, and the ownership and
//! permission bits applied to created directories and copied files.
//!
//! Applying ownership is an operating-system effect; the library records the
//! intent in the operation log and the binary performs the call.

use vstd::prelude::*;

use crate::config::{any_component_ignored, component_ignored};
use crate::fsmodel::{Fs, FsError, FsView};
use crate::handler::Handler;
use crate::paths::{is_prefix_of, FsPath};
use crate::runner::{cache_ok, fs_grows, lemma_prefix_of_prefix, untouched_outside, Op, OpView};

verus! {

/// Ownership and permission bits to apply to a created path.
#[derive(Clone, Copy, Debug)]
pub struct Perm {
    pub uid: Option<u32>,
    pub gid: Option<u32>,
    /// Mode bits, when they are to be overridden.
    pub permissions: Option<u32>,
}

/// What to do with a regular file.
pub enum FileOperation {
    Skip,
    /// Hardlink the source to the target path.
    Link,
    /// Copy the bytes, then apply ownership and permissions.
    Copy { perm: Perm },
}

/// What to do with a directory.
pub enum DirOperation {
    Skip,
    /// Create the target directory, apply ownership, then descend.
    Process { perm: Perm },
}

/// What to do with a symlink.
pub enum SymLinkOperation {
    Skip,
    /// Resolve the final target and hardlink that.
    LinkTarget,
    /// Hardlink the symlink entry itself.
    LinkSymlink,
    /// Copy the resolved contents.
    CopyTarget { perm: Perm },
}

/// Directory index `j` would be visited by a walk of `src` with this ignore
/// set: it sits below `src` and no name on the way down is ignored.
pub open spec fn walked_dir(
    fs: FsView,
    ignore: Seq<Seq<char>>,
    src: Seq<Seq<char>>,
    j: int,
) -> bool {
    let d = fs.dirs[j];
    &&& 0 <= j < fs.dirs.len()
    &&& is_prefix_of(src, d)
    &&& d.len() > src.len()
    &&& !component_ignored(ignore, d.subrange(src.len() as int, d.len() as int))
}

/// File index `j` would be visited by a walk of `src` with this ignore set.
pub open spec fn walked_file(
    fs: FsView,
    ignore: Seq<Seq<char>>,
    src: Seq<Seq<char>>,
    j: int,
) -> bool {
    let p = fs.files[j].path;
    &&& 0 <= j < fs.files.len()
    &&& is_prefix_of(src, p)
    &&& p.len() > src.len()
    &&& !component_ignored(ignore, p.subrange(src.len() as int, p.len() as int))
}

/// A file's mapped path on the target side.
pub open spec fn mapped_target(
    src: Seq<Seq<char>>,
    target: Seq<Seq<char>>,
    p: Seq<Seq<char>>,
) -> Seq<Seq<char>> {
    target + p.subrange(src.len() as int, p.len() as int)
}

/// A file the walk placed at `q` on the target side is accounted for: it
/// mirrors a visited source file, and its inode tells how it was made — a
/// link shares the source's inode, a copy got a fresh one.
pub open spec fn placed_file_ok(
    fs0: FsView,
    fsv: FsView,
    ig: Seq<Seq<char>>,
    link_ext: Seq<Seq<char>>,
    copy_ext: Seq<Seq<char>>,
    src: Seq<Seq<char>>,
    target: Seq<Seq<char>>,
    q: Seq<Seq<char>>,
) -> bool {
    let rel = q.subrange(target.len() as int, q.len() as int);
    &&& is_prefix_of(target, q)
    &&& q.len() > target.len()
    &&& fs0.has_file(src + rel)
    &&& !component_ignored(ig, rel)
    &&& (crate::paths::extension_spec(q.last()) matches Some(e) && link_ext.contains(e)
        ==> fsv.file_at(q).inode == fs0.file_at(src + rel).inode)
    &&& (crate::paths::extension_spec(q.last()) matches Some(e) && copy_ext.contains(e)
        && !link_ext.contains(e) ==> fsv.file_at(q).inode >= fs0.next_inode)
}

/// Appended ownership operations are disciplined: each `SetPerm` carries
/// the configured owner and follows, for the same path, the directory
/// creation or the copy it belongs to — never a hardlink.
pub open spec fn setperm_disciplined(
    pre_len: int,
    ops: Seq<OpView>,
    uid: Option<u32>,
    gid: Option<u32>,
) -> bool {
    forall|kk: int|
        pre_len <= kk < ops.len() && ((#[trigger] ops[kk]) matches OpView::SetPerm { .. })
            ==> match ops[kk] {
            OpView::SetPerm { path, perm } => {
                &&& perm.uid == uid
                &&& perm.gid == gid
                &&& kk > pre_len
                &&& (ops[kk - 1] == OpView::CreateDirAll { path } || (exists|
                    sc: Seq<Seq<char>>,
                | ops[kk - 1] == OpView::CopyFile { src: sc, target: path }))
            },
            _ => true,
        }
}

/// A source-side directory that a walk would visit has an index among the
/// filesystem's directories, and its mapped path splits back into the
/// target root and the relative path.
proof fn lemma_walked_dir_witness(
    fs0: FsView,
    ig: Seq<Seq<char>>,
    src: Seq<Seq<char>>,
    target: Seq<Seq<char>>,
    rel: Seq<Seq<char>>,
)
    requires
        rel.len() >= 1,
        fs0.is_dir(src + rel),
        !component_ignored(ig, rel),
    ensures
        exists|i2: int|
            #[trigger] walked_dir(fs0, ig, src, i2) && fs0.dirs[i2] == src + rel
                && mapped_target(src, target, fs0.dirs[i2]) == target + rel,
{
    let i2 = choose|i: int| 0 <= i < fs0.dirs.len() && fs0.dirs[i] == src + rel;
    assert(fs0.dirs[i2] == src + rel);
    assert(walked_dir(fs0, ig, src, i2)) by {
        assert(is_prefix_of(src, fs0.dirs[i2])) by {
            assert(fs0.dirs[i2].subrange(0, src.len() as int) =~= src);
        }
        assert(fs0.dirs[i2].subrange(src.len() as int, fs0.dirs[i2].len() as int) =~= rel);
    }
    assert(mapped_target(src, target, fs0.dirs[i2]) =~= target + rel);
}

/// Appending to equal heads keeps equal tails: concatenation of component
/// paths is injective on its right operand.
proof fn lemma_path_append_inj(a: Seq<Seq<char>>, b: Seq<Seq<char>>, c: Seq<Seq<char>>)
    requires
        a + b == a + c,
    ensures
        b == c,
{
    assert(b =~= (a + b).subrange(a.len() as int, (a + b).len() as int));
    assert(c =~= (a + c).subrange(a.len() as int, (a + c).len() as int));
}

/// Mirror the tree under `src` into `target`, one decision of the handler
/// per entry: files are skipped, hardlinked or copied, directories are
/// skipped or created and descended into. Every mutation is appended to the
/// operation log.
#[verifier::loop_isolation(false)]
#[verifier::rlimit(100)]
pub fn link_dir(
    fs: &mut Fs,
    handler: &mut Handler,
    src: &FsPath,
    target: &FsPath,
    ops: &mut Vec<Op>,
) -> (r: Result<(), FsError>)
    requires
        old(fs)@.wf(),
        old(handler).wf(),
        !is_prefix_of(src@, target@),
        !is_prefix_of(target@, src@),
        old(handler).db@.next_id as int + old(fs)@.files.len() as int <= i32::MAX as int,
        old(fs)@.next_inode as int + old(fs)@.files.len() as int <= u64::MAX as int,
    ensures
        final(fs)@.wf(),
        final(handler).wf(),
        final(handler).basic == old(handler).basic,
        fs_grows(old(fs)@, final(fs)@),
        untouched_outside(old(fs)@, final(fs)@, target@),
        final(ops).deep_view().subrange(0, old(ops).deep_view().len() as int) == old(ops).deep_view(),
        old(ops).deep_view().len() <= final(ops).deep_view().len(),
        setperm_disciplined(
            old(ops).deep_view().len() as int,
            final(ops).deep_view(),
            old(handler).basic.uid,
            old(handler).basic.gid,
        ),
        forall|s: Seq<Seq<char>>|
            #[trigger] cache_ok(old(fs)@, old(handler).db@, s) ==> cache_ok(
                final(fs)@,
                final(handler).db@,
                s,
            ),
        !old(fs)@.path_exists(src@) ==> r == Err::<(), FsError>(FsError::SourceMissing),
        old(fs)@.has_file(src@) ==> r == Err::<(), FsError>(FsError::SourceNotDirectory),
        old(fs)@.is_dir(src@) && !old(fs)@.path_exists(target@) ==> r == Err::<(), FsError>(
            FsError::TargetMissing,
        ),
        old(fs)@.is_dir(src@) && old(fs)@.has_file(target@) ==> r == Err::<(), FsError>(
            FsError::TargetNotDirectory,
        ),
        (r == Err::<(), FsError>(FsError::SourceMissing) || r == Err::<(), FsError>(
            FsError::SourceNotDirectory,
        ) || r == Err::<(), FsError>(FsError::TargetMissing) || r == Err::<(), FsError>(
            FsError::TargetNotDirectory,
        )) ==> final(fs)@ == old(fs)@ && final(handler).db@ == old(handler).db@ && final(handler).searcher@ == old(handler).searcher@ && final(ops).deep_view() == old(ops).deep_view(),
        old(fs)@.is_dir(src@) && old(fs)@.is_dir(target@) && r is Err ==> (r == Err::<
            (),
            FsError,
        >(FsError::CreateDirOnFile) || r == Err::<(), FsError>(FsError::CopyTargetIsDir)),
        r == Err::<(), FsError>(FsError::CreateDirOnFile) ==> exists|j: int, k: int|
            walked_dir(old(fs)@, old(handler).basic.ignore.deep_view(), src@, j)
                && target@.len() < k <= mapped_target(src@, target@, old(fs)@.dirs[j]).len()
                && old(fs)@.has_file(
                #[trigger] mapped_target(src@, target@, old(fs)@.dirs[j]).subrange(0, k),
            ),
        r == Err::<(), FsError>(FsError::CopyTargetIsDir) ==> exists|j: int|
            walked_file(old(fs)@, old(handler).basic.ignore.deep_view(), src@, j) && old(fs)@.is_dir(#[trigger] mapped_target(src@, target@, old(fs)@.files[j].path)),
        (old(fs)@.is_dir(src@) && old(fs)@.is_dir(target@) && (forall|j: int, k: int|
            walked_dir(old(fs)@, old(handler).basic.ignore.deep_view(), src@, j)
                && target@.len() < k <= mapped_target(src@, target@, old(fs)@.dirs[j]).len()
                ==> !old(fs)@.has_file(
                #[trigger] mapped_target(src@, target@, old(fs)@.dirs[j]).subrange(0, k),
            )) && (forall|j: int|
            walked_file(old(fs)@, old(handler).basic.ignore.deep_view(), src@, j) ==> !old(fs)@.is_dir(#[trigger] mapped_target(src@, target@, old(fs)@.files[j].path))))
            ==> r is Ok,
        forall|q: Seq<Seq<char>>|
            #[trigger] final(fs)@.is_dir(q) && !old(fs)@.is_dir(q) ==> exists|j: int|
                walked_dir(old(fs)@, old(handler).basic.ignore.deep_view(), src@, j)
                    && is_prefix_of(q, mapped_target(src@, target@, old(fs)@.dirs[j]))
                    && q.len() > target@.len(),
        forall|q: Seq<Seq<char>>|
            #[trigger] final(fs)@.has_file(q) && !old(fs)@.has_file(q) ==> placed_file_ok(
                old(fs)@,
                final(fs)@,
                old(handler).basic.ignore.deep_view(),
                old(handler).basic.link_ext.deep_view(),
                old(handler).basic.copy_ext.deep_view(),
                src@,
                target@,
                q,
            ),
        r is Ok ==> {
            &&& old(fs)@.is_dir(src@) && old(fs)@.is_dir(target@)
            &&& forall|j: int|
                #[trigger] walked_dir(
                    old(fs)@,
                    old(handler).basic.ignore.deep_view(),
                    src@,
                    j,
                ) ==> final(fs)@.is_dir(mapped_target(src@, target@, old(fs)@.dirs[j]))
            &&& forall|j: int|
                #[trigger] walked_file(
                    old(fs)@,
                    old(handler).basic.ignore.deep_view(),
                    src@,
                    j,
                ) && (crate::paths::extension_spec(old(fs)@.files[j].path.last()) matches Some(e)
                    && old(handler).basic.link_ext.deep_view().contains(e)) ==> final(fs)@.path_exists(mapped_target(src@, target@, old(fs)@.files[j].path)) || cache_ok(
                    final(fs)@,
                    final(handler).db@,
                    old(fs)@.files[j].path,
                )
            &&& forall|j: int|
                #[trigger] walked_file(
                    old(fs)@,
                    old(handler).basic.ignore.deep_view(),
                    src@,
                    j,
                ) && (crate::paths::extension_spec(old(fs)@.files[j].path.last()) matches Some(e)
                    && old(handler).basic.copy_ext.deep_view().contains(e)
                    && !old(handler).basic.link_ext.deep_view().contains(e)) ==> final(fs)@.has_file(mapped_target(src@, target@, old(fs)@.files[j].path)) && final(fs)@.file_at(
                    mapped_target(src@, target@, old(fs)@.files[j].path),
                ).content == old(fs)@.file_at(old(fs)@.files[j].path).content
        },
{
    let ghost fs0 = old(fs)@;
    let ghost db0 = old(handler).db@;
    let ghost ops0 = old(ops).deep_view();
    let ghost ig = old(handler).basic.ignore.deep_view();
    if !fs.exists_path(src) {
        return Err(FsError::SourceMissing);
    }
    if fs.is_file(src) {
        return Err(FsError::SourceNotDirectory);
    }
    if !fs.exists_path(target) {
        return Err(FsError::TargetMissing);
    }
    if fs.is_file(target) {
        return Err(FsError::TargetNotDirectory);
    }
    // Gather the directories the walk would visit.
    let mut dirrels: Vec<FsPath> = Vec::new();
    let nd: usize = fs.dirs.len();
    let mut j: usize = 0;
    while j < nd
        invariant
            fs@ == fs0,
            nd == fs.dirs.len(),
            j <= nd,
            forall|m: int|
                0 <= m < dirrels.deep_view().len() ==> {
                    let rel = #[trigger] dirrels.deep_view()[m];
                    &&& rel.len() >= 1
                    &&& fs0.is_dir(src@ + rel)
                    &&& !component_ignored(ig, rel)
                },
            forall|jj: int|
                0 <= jj < j && walked_dir(fs0, ig, src@, jj) ==> exists|m: int|
                    0 <= m < dirrels.deep_view().len() && src@ + #[trigger] dirrels.deep_view()[m]
                        == fs0.dirs[jj],
        decreases nd - j,
    {
        proof {
            assert(fs0.dirs[j as int] == fs.dirs@[j as int].deep_view());
        }
        if fs.dirs[j].starts_with(src) && fs.dirs[j].len() > src.len() {
            let rel = fs.dirs[j].strip_prefix(src);
            if !any_component_ignored(&handler.basic.ignore, &rel) {
                proof {
                    assert(src@ + rel@ =~= fs0.dirs[j as int]);
                    assert(fs0.is_dir(src@ + rel@)) by {
                        assert(fs0.dirs[j as int] == src@ + rel@);
                    }
                }
                let ghost pre_rels = dirrels.deep_view();
                crate::util::push_deep(&mut dirrels, rel);
                proof {
                    assert forall|jj: int| 0 <= jj < j + 1 && walked_dir(fs0, ig, src@, jj)
                        implies exists|m: int|
                        0 <= m < dirrels.deep_view().len() && src@
                            + #[trigger] dirrels.deep_view()[m] == fs0.dirs[jj] by {
                        if jj < j {
                            let m = choose|m: int|
                                0 <= m < pre_rels.len() && src@ + pre_rels[m] == fs0.dirs[jj];
                            assert(dirrels.deep_view()[m] == pre_rels[m]);
                        } else {
                            assert(src@ + dirrels.deep_view().last() == fs0.dirs[jj]);
                        }
                    }
                }
            } else {
                proof {
                    assert forall|jj: int| 0 <= jj < j + 1 && walked_dir(fs0, ig, src@, jj)
                        implies exists|m: int|
                        0 <= m < dirrels.deep_view().len() && src@
                            + #[trigger] dirrels.deep_view()[m] == fs0.dirs[jj] by {
                        if jj == j {
                            let d = fs0.dirs[j as int];
                            assert(d.subrange(src@.len() as int, d.len() as int) =~= rel@);
                        }
                    }
                }
            }
        } else {
            proof {
                assert forall|jj: int| 0 <= jj < j + 1 && walked_dir(fs0, ig, src@, jj) implies
                    exists|m: int|
                    0 <= m < dirrels.deep_view().len() && src@ + #[trigger] dirrels.deep_view()[m]
                        == fs0.dirs[jj] by {}
            }
        }
        j = j + 1;
    }
    let ghost drels = dirrels.deep_view();
    // Create the target-side directories (missing ancestors included, so the
    // order of discovery does not matter).
    let ndr: usize = dirrels.len();
    let mut k: usize = 0;
    while k < ndr
        invariant
            ndr == dirrels.len(),
            k <= ndr,
            drels == dirrels.deep_view(),
            fs@.wf(),
            fs@.files == fs0.files,
            fs@.next_inode == fs0.next_inode,
            forall|q: Seq<Seq<char>>| #[trigger] fs0.is_dir(q) ==> fs@.is_dir(q),
            forall|q: Seq<Seq<char>>|
                #[trigger] fs@.is_dir(q) && !fs0.is_dir(q) ==> exists|m: int|
                    0 <= m < k && is_prefix_of(q, target@ + drels[m]) && q.len()
                        > target@.len(),
            forall|m: int|
                0 <= m < k ==> fs@.is_dir(target@ + #[trigger] drels[m]),
            ops.deep_view().subrange(0, ops0.len() as int) == ops0,
            ops0.len() <= ops.deep_view().len(),
            setperm_disciplined(
                ops0.len() as int,
                ops.deep_view(),
                old(handler).basic.uid,
                old(handler).basic.gid,
            ),
        decreases ndr - k,
    {
        proof {
            assert(drels[k as int] == dirrels@[k as int].deep_view());
        }
        let tdir = target.concat(&dirrels[k]);
        proof {
            assert(tdir@ == target@ + drels[k as int]);
        }
        let ghost pre_fs = fs@;
        if !fs.is_dir(&tdir) {
            match fs.create_dir_all(&tdir) {
                Ok(()) => {},
                Err(e) => {
                    proof {
                        assert(fs@ == pre_fs);
                        assert forall|q: Seq<Seq<char>>| #[trigger] fs0.has_file(q) implies
                            fs@.has_file(q) && fs@.file_at(q).inode == fs0.file_at(q).inode by {}
                        assert forall|s: Seq<Seq<char>>| #[trigger] cache_ok(fs0, db0, s)
                            implies cache_ok(fs@, handler.db@, s) by {
                            let w = choose|i: int|
                                0 <= i < db0.records.len() && db0.records[i].src == s
                                    && fs0.path_exists(db0.records[i].target);
                        }
                        // The chain hit a file that was there from the start,
                        // below the target root, on a walked directory's
                        // mapped path.
                        let kk = choose|kk: int|
                            1 <= kk <= tdir@.len() && pre_fs.has_file(
                                tdir@.subrange(0, kk),
                            );
                        assert(fs0.has_file(tdir@.subrange(0, kk))) by {
                            assert(pre_fs.files == fs0.files);
                        }
                        assert(kk > target@.len()) by {
                            if kk <= target@.len() {
                                assert(tdir@.subrange(0, kk) =~= target@.subrange(0, kk));
                                let w = choose|m: int|
                                    0 <= m < fs0.dirs.len() && fs0.dirs[m] == target@;
                                if kk < target@.len() {
                                    assert(fs0.dirs.contains(
                                        fs0.dirs[w].subrange(0, kk),
                                    ));
                                    assert(fs0.dirs[w].subrange(0, kk) == target@.subrange(
                                        0,
                                        kk,
                                    ));
                                } else {
                                    assert(target@.subrange(0, target@.len() as int)
                                        =~= target@);
                                }
                                assert(fs0.is_dir(tdir@.subrange(0, kk)));
                                let wf2 = fs0.file_index(tdir@.subrange(0, kk));
                                assert(fs0.files[wf2].path == tdir@.subrange(0, kk));
                            }
                        }
                        let jj = choose|i: int|
                            0 <= i < fs0.dirs.len() && fs0.dirs[i] == src@ + drels[k as int];
                        assert(fs0.dirs[jj] == src@ + drels[k as int]);
                        assert(walked_dir(fs0, ig, src@, jj)) by {
                            assert(is_prefix_of(src@, fs0.dirs[jj])) by {
                                assert(fs0.dirs[jj].subrange(0, src@.len() as int) =~= src@);
                            }
                            assert(fs0.dirs[jj].subrange(
                                src@.len() as int,
                                fs0.dirs[jj].len() as int,
                            ) =~= drels[k as int]);
                        }
                        assert(mapped_target(src@, target@, fs0.dirs[jj]) =~= tdir@);
                        assert(target@.len() < kk <= mapped_target(
                            src@,
                            target@,
                            fs0.dirs[jj],
                        ).len() && fs0.has_file(mapped_target(
                            src@,
                            target@,
                            fs0.dirs[jj],
                        ).subrange(0, kk)));
                        // Directories created so far stand on walked mapped
                        // paths.
                        assert forall|q: Seq<Seq<char>>| #[trigger] fs@.is_dir(q)
                            && !fs0.is_dir(q) implies exists|i2: int|
                            walked_dir(fs0, ig, src@, i2) && is_prefix_of(
                                q,
                                mapped_target(src@, target@, fs0.dirs[i2]),
                            ) && q.len() > target@.len() by {
                            let m = choose|m: int|
                                0 <= m < k && is_prefix_of(q, target@ + drels[m]) && q.len()
                                    > target@.len();
                            lemma_walked_dir_witness(fs0, ig, src@, target@, drels[m]);
                        }
                    }
                    return Err(e);
                },
            }
            crate::util::push_deep(ops, Op::CreateDirAll { path: tdir });
            let op_perm = handler.perm();
            crate::util::push_deep(
                ops,
                Op::SetPerm { path: target.concat(&dirrels[k]), perm: op_perm },
            );
            proof {
                assert forall|q: Seq<Seq<char>>| #[trigger] fs@.is_dir(q) && !fs0.is_dir(q)
                    implies exists|m: int|
                    0 <= m < k + 1 && is_prefix_of(q, target@ + drels[m]) && q.len()
                        > target@.len() by {
                    if !pre_fs.is_dir(q) {
                        assert(is_prefix_of(q, target@ + drels[k as int]));
                        assert forall|i: int| 0 <= i < q.len() implies q[i] == (target@
                            + drels[k as int])[i] by {
                            assert(q[i] == (target@ + drels[k as int]).subrange(
                                0,
                                q.len() as int,
                            )[i]);
                        }
                        if q.len() <= target@.len() {
                            assert(q =~= target@.subrange(0, q.len() as int));
                            assert(fs0.is_dir(target@));
                            let w = choose|m: int|
                                0 <= m < fs0.dirs.len() && fs0.dirs[m] == target@;
                            if q.len() < target@.len() {
                                assert(fs0.dirs.contains(
                                    fs0.dirs[w].subrange(0, q.len() as int),
                                ));
                                assert(fs0.dirs[w].subrange(0, q.len() as int) == q);
                            } else {
                                assert(target@.subrange(0, target@.len() as int) =~= target@);
                                assert(q == target@);
                            }
                            assert(fs0.is_dir(q));
                        } else {
                            assert(0 <= k < k + 1 && is_prefix_of(q, target@ + drels[
                                k as int]) && q.len() > target@.len());
                        }
                    } else {
                        let m = choose|m: int|
                            0 <= m < k && is_prefix_of(q, target@ + drels[m]) && q.len()
                                > target@.len();
                        assert(0 <= m < k + 1 && is_prefix_of(q, target@ + drels[m]) && q.len()
                            > target@.len());
                    }
                }
                assert forall|m: int| 0 <= m < k + 1 implies fs@.is_dir(
                    target@ + #[trigger] drels[m],
                ) by {
                    if m < k {
                        assert(pre_fs.is_dir(target@ + drels[m]));
                    } else {
                        assert(is_prefix_of(target@ + drels[m], target@ + drels[m])) by {
                            assert((target@ + drels[m]).subrange(
                                0,
                                (target@ + drels[m]).len() as int,
                            ) =~= target@ + drels[m]);
                        }
                    }
                }
                assert(ops.deep_view().subrange(0, ops0.len() as int) =~= ops0);
            }
        } else {
            proof {
                assert forall|m: int| 0 <= m < k + 1 implies fs@.is_dir(
                    target@ + #[trigger] drels[m],
                ) by {}
                assert forall|q: Seq<Seq<char>>| #[trigger] fs@.is_dir(q) && !fs0.is_dir(q)
                    implies exists|m: int|
                    0 <= m < k + 1 && is_prefix_of(q, target@ + drels[m]) && q.len()
                        > target@.len() by {
                    let m = choose|m: int|
                        0 <= m < k && is_prefix_of(q, target@ + drels[m]) && q.len()
                            > target@.len();
                }
            }
        }
        k = k + 1;
    }
    let ghost fs_mid = fs@;
    // Gather the files the walk would visit, from the same snapshot.
    let mut filerels: Vec<FsPath> = Vec::new();
    let nf: usize = fs.files.len();
    let mut j2: usize = 0;
    while j2 < nf
        invariant
            fs@ == fs_mid,
            fs_mid.files == fs0.files,
            nf == fs.files.len(),
            j2 <= nf,
            filerels.deep_view().len() <= j2,
            forall|m: int|
                0 <= m < filerels.deep_view().len() ==> {
                    let rel = #[trigger] filerels.deep_view()[m];
                    &&& rel.len() >= 1
                    &&& fs0.has_file(src@ + rel)
                    &&& !component_ignored(ig, rel)
                },
            forall|jj: int|
                0 <= jj < j2 && walked_file(fs0, ig, src@, jj) ==> exists|m: int|
                    0 <= m < filerels.deep_view().len() && src@
                        + #[trigger] filerels.deep_view()[m] == fs0.files[jj].path,
        decreases nf - j2,
    {
        proof {
            assert(fs0.files[j2 as int] == fs.files@[j2 as int].deep_view());
        }
        if fs.files[j2].path.starts_with(src) && fs.files[j2].path.len() > src.len() {
            let rel = fs.files[j2].path.strip_prefix(src);
            if !any_component_ignored(&handler.basic.ignore, &rel) {
                proof {
                    assert(src@ + rel@ =~= fs0.files[j2 as int].path);
                    fs0.lemma_file_index(j2 as int);
                }
                let ghost pre_rels = filerels.deep_view();
                crate::util::push_deep(&mut filerels, rel);
                proof {
                    assert forall|jj: int| 0 <= jj < j2 + 1 && walked_file(fs0, ig, src@, jj)
                        implies exists|m: int|
                        0 <= m < filerels.deep_view().len() && src@
                            + #[trigger] filerels.deep_view()[m] == fs0.files[jj].path by {
                        if jj < j2 {
                            let m = choose|m: int|
                                0 <= m < pre_rels.len() && src@ + pre_rels[m] == fs0.files[
                                    jj].path;
                            assert(filerels.deep_view()[m] == pre_rels[m]);
                        } else {
                            assert(src@ + filerels.deep_view().last() == fs0.files[jj].path);
                        }
                    }
                }
            } else {
                proof {
                    assert forall|jj: int| 0 <= jj < j2 + 1 && walked_file(fs0, ig, src@, jj)
                        implies exists|m: int|
                        0 <= m < filerels.deep_view().len() && src@
                            + #[trigger] filerels.deep_view()[m] == fs0.files[jj].path by {
                        if jj == j2 {
                            let p = fs0.files[j2 as int].path;
                            assert(p.subrange(src@.len() as int, p.len() as int) =~= rel@);
                        }
                    }
                }
            }
        } else {
            proof {
                assert forall|jj: int| 0 <= jj < j2 + 1 && walked_file(fs0, ig, src@, jj)
                    implies exists|m: int|
                    0 <= m < filerels.deep_view().len() && src@
                        + #[trigger] filerels.deep_view()[m] == fs0.files[jj].path by {}
            }
        }
        j2 = j2 + 1;
    }
    let ghost frels = filerels.deep_view();
    // Visit each file and apply the handler's decision.
    let nfr: usize = filerels.len();
    let mut k2: usize = 0;
    while k2 < nfr
        invariant
            nfr == filerels.len(),
            nfr <= nf,
            nf == fs0.files.len(),
            k2 <= nfr,
            frels == filerels.deep_view(),
            fs@.wf(),
            handler.wf(),
            handler.basic == old(handler).basic,
            fs_grows(fs0, fs@),
            untouched_outside(fs0, fs@, target@),
            fs0.next_inode <= fs@.next_inode,
            fs@.next_inode as int <= fs0.next_inode as int + k2 as int,
            handler.db@.next_id as int <= db0.next_id as int + k2 as int,
            fs@.dirs == fs_mid.dirs,
            forall|q: Seq<Seq<char>>|
                #[trigger] fs@.has_file(q) && !fs0.has_file(q) ==> placed_file_ok(
                    fs0,
                    fs@,
                    ig,
                    old(handler).basic.link_ext.deep_view(),
                    old(handler).basic.copy_ext.deep_view(),
                    src@,
                    target@,
                    q,
                ),
            forall|s: Seq<Seq<char>>|
                #[trigger] cache_ok(fs0, db0, s) ==> cache_ok(fs@, handler.db@, s),
            forall|m: int|
                0 <= m < drels.len() ==> fs@.is_dir(target@ + #[trigger] drels[m]),
            forall|jj: int|
                walked_dir(fs0, ig, src@, jj) ==> exists|m: int|
                    0 <= m < drels.len() && src@ + #[trigger] drels[m] == fs0.dirs[jj],
            forall|m: int|
                0 <= m < frels.len() ==> {
                    let rel = #[trigger] frels[m];
                    &&& rel.len() >= 1
                    &&& fs0.has_file(src@ + rel)
                    &&& !component_ignored(ig, rel)
                },
            forall|m: int|
                0 <= m < k2 && (crate::paths::extension_spec(
                    (#[trigger] frels[m]).last(),
                ) matches Some(e) && old(handler).basic.link_ext.deep_view().contains(e))
                    ==> fs@.path_exists(target@ + frels[m]) || cache_ok(
                    fs@,
                    handler.db@,
                    src@ + frels[m],
                ),
            forall|m: int|
                0 <= m < k2 && (crate::paths::extension_spec(
                    (#[trigger] frels[m]).last(),
                ) matches Some(e) && old(handler).basic.copy_ext.deep_view().contains(e)
                    && !old(handler).basic.link_ext.deep_view().contains(e)) ==> fs@.has_file(
                    target@ + frels[m],
                ) && fs@.file_at(target@ + frels[m]).content == fs0.file_at(
                    src@ + frels[m],
                ).content,
            ops.deep_view().subrange(0, ops0.len() as int) == ops0,
            ops0.len() <= ops.deep_view().len(),
            setperm_disciplined(
                ops0.len() as int,
                ops.deep_view(),
                old(handler).basic.uid,
                old(handler).basic.gid,
            ),
        decreases nfr - k2,
    {
        proof {
            assert(frels[k2 as int] == filerels@[k2 as int].deep_view());
        }
        let p = src.concat(&filerels[k2]);
        let tpath = target.concat(&filerels[k2]);
        let ghost rel = frels[k2 as int];
        proof {
            assert(p@ == src@ + rel);
            assert(fs0.has_file(p@));
            assert(fs@.has_file(p@));
            assert(p@.last() == rel.last());
            assert(handler.db@.next_id < i32::MAX);
        }
        let ghost pre_fs = fs@;
        let ghost pre_db = handler.db@;
        let op = handler.handle_file(fs, &p, &tpath);
        proof {
            // The mapped parent directory is already in place.
            assert(fs@.is_dir(tpath@.drop_last())) by {
                if rel.len() == 1 {
                    assert(tpath@.drop_last() =~= target@);
                    assert(fs0.is_dir(target@));
                } else {
                    let parent = p@.drop_last();
                    assert(fs0.dirs.contains(parent)) by {
                        let w = fs0.file_index(p@);
                        fs0.lemma_file_index(w);
                    }
                    let wd = choose|m: int|
                        0 <= m < fs0.dirs.len() && fs0.dirs[m] == parent;
                    assert(walked_dir(fs0, ig, src@, wd)) by {
                        assert(fs0.dirs[wd] == parent);
                        assert(is_prefix_of(src@, parent)) by {
                            assert(parent.subrange(0, src@.len() as int) =~= p@.subrange(
                                0,
                                src@.len() as int,
                            ));
                            assert(p@.subrange(0, src@.len() as int) =~= src@);
                        }
                        assert(!component_ignored(
                            ig,
                            parent.subrange(src@.len() as int, parent.len() as int),
                        )) by {
                            assert(parent.subrange(src@.len() as int, parent.len() as int)
                                =~= rel.drop_last());
                            if component_ignored(ig, rel.drop_last()) {
                                let ci = choose|i: int|
                                    0 <= i < rel.drop_last().len() && ig.contains(
                                        rel.drop_last()[i],
                                    );
                                assert(rel[ci] == rel.drop_last()[ci]);
                            }
                        }
                    }
                    let m = choose|m: int|
                        0 <= m < drels.len() && src@ + drels[m] == fs0.dirs[wd];
                    assert(fs@.is_dir(target@ + drels[m]));
                    assert(target@ + drels[m] =~= tpath@.drop_last()) by {
                        assert(src@ + drels[m] == parent);
                        assert(drels[m] =~= rel.drop_last()) by {
                            assert(drels[m] =~= (src@ + drels[m]).subrange(
                                src@.len() as int,
                                (src@ + drels[m]).len() as int,
                            ));
                            assert(parent.subrange(src@.len() as int, parent.len() as int)
                                =~= rel.drop_last());
                        }
                        assert(tpath@.drop_last() =~= target@ + rel.drop_last());
                    }
                }
            }
        }
        match op {
            FileOperation::Skip => {
                proof {
                    assert(fs@ == pre_fs);
                }
            },
            FileOperation::Link => {
                proof {
                    assert(!fs@.path_exists(tpath@));
                    assert(tpath@.len() > 0);
                }
                fs.hard_link(&p, &tpath);
                crate::util::push_deep(
                    ops,
                    Op::HardLink { src: p.duplicate(), target: tpath.duplicate() },
                );
                proof {
                    let post = fs@;
                    post.lemma_file_index(post.files.len() - 1);
                    assert forall|q: Seq<Seq<char>>| #[trigger] pre_fs.has_file(q) implies
                        post.has_file(q) && post.file_at(q).inode == pre_fs.file_at(
                        q,
                    ).inode by {
                        let w = pre_fs.file_index(q);
                        pre_fs.lemma_file_index(w);
                        assert(post.files[w] == pre_fs.files[w]);
                        post.lemma_file_index(w);
                    }
                    assert forall|q: Seq<Seq<char>>| #[trigger] post.has_file(q)
                        && !pre_fs.has_file(q) implies q == tpath@ by {
                        let w = post.file_index(q);
                        if w < pre_fs.files.len() {
                            assert(pre_fs.files[w].path == q);
                            pre_fs.lemma_file_index(w);
                        }
                    }
                    assert forall|q: Seq<Seq<char>>| q != tpath@ && pre_fs.has_file(q) implies
                        #[trigger] post.file_at(q) == pre_fs.file_at(q) by {
                        let w = pre_fs.file_index(q);
                        pre_fs.lemma_file_index(w);
                        assert(post.files[w] == pre_fs.files[w]);
                        post.lemma_file_index(w);
                    }
                    assert(is_prefix_of(target@, tpath@)) by {
                        assert(tpath@.subrange(0, target@.len() as int) =~= target@);
                    }
                    lemma_fs_grow_keeps_cache(pre_fs, fs@, handler.db@);
                }
            },
            FileOperation::Copy { perm } => {
                if fs.is_dir(&tpath) {
                    proof {
                        assert forall|s: Seq<Seq<char>>| #[trigger] cache_ok(fs0, db0, s)
                            implies cache_ok(fs@, handler.db@, s) by {
                            assert(cache_ok(pre_fs, pre_db, s));
                            assert(cache_ok(pre_fs, handler.db@, s));
                        }
                        // The obstructing directory was there from the start:
                        // directories created by this walk sit strictly under
                        // mapped source directories, and a mapped file path
                        // can never be one of those.
                        assert(fs_mid.is_dir(tpath@)) by {
                            let w = choose|i: int|
                                0 <= i < fs@.dirs.len() && fs@.dirs[i] == tpath@;
                            assert(fs_mid.dirs[w] == tpath@);
                        }
                        assert(fs0.is_dir(tpath@)) by {
                            if !fs0.is_dir(tpath@) {
                                let m = choose|m: int|
                                    0 <= m < drels.len() && is_prefix_of(
                                        tpath@,
                                        target@ + drels[m],
                                    ) && tpath@.len() > target@.len();
                                // Strip the target root: the file's relative
                                // path is a leading portion of the dir's.
                                assert forall|i: int|
                                    0 <= i < frels[k2 as int].len() implies frels[k2 as int][i]
                                        == drels[m][i] by {
                                    assert(tpath@[target@.len() + i] == (target@ + drels[
                                        m])[target@.len() + i]) by {
                                        assert(tpath@[target@.len() + i] == (target@ + drels[
                                            m]).subrange(0, tpath@.len() as int)[target@.len()
                                            + i]);
                                    }
                                }
                                if frels[k2 as int].len() == drels[m].len() {
                                    assert(frels[k2 as int] =~= drels[m]);
                                    assert(fs0.has_file(src@ + drels[m]));
                                    assert(fs0.is_dir(src@ + drels[m]));
                                    let wf2 = fs0.file_index(src@ + drels[m]);
                                    assert(fs0.files[wf2].path == src@ + drels[m]);
                                } else {
                                    assert(frels[k2 as int].len() < drels[m].len());
                                    let sd = src@ + drels[m];
                                    let wd = choose|i: int|
                                        0 <= i < fs0.dirs.len() && fs0.dirs[i] == sd;
                                    assert(fs0.dirs[wd] == sd);
                                    assert(fs0.dirs.contains(
                                        fs0.dirs[wd].subrange(0, p@.len() as int),
                                    ));
                                    assert(fs0.dirs[wd].subrange(0, p@.len() as int) =~= p@);
                                    assert(fs0.is_dir(p@));
                                    let wf2 = fs0.file_index(p@);
                                    assert(fs0.files[wf2].path == p@);
                                }
                            }
                        }
                        let jw = fs0.file_index(p@);
                        assert(fs0.files[jw].path == p@);
                        assert(walked_file(fs0, ig, src@, jw)) by {
                            assert(is_prefix_of(src@, p@)) by {
                                assert(p@.subrange(0, src@.len() as int) =~= src@);
                            }
                            assert(p@.subrange(src@.len() as int, p@.len() as int)
                                =~= frels[k2 as int]);
                        }
                        assert(mapped_target(src@, target@, fs0.files[jw].path) =~= tpath@);
                        assert(fs0.is_dir(mapped_target(src@, target@, fs0.files[jw].path)));
                        assert forall|q: Seq<Seq<char>>| #[trigger] fs@.is_dir(q)
                            && !fs0.is_dir(q) implies exists|i2: int|
                            walked_dir(fs0, ig, src@, i2) && is_prefix_of(
                                q,
                                mapped_target(src@, target@, fs0.dirs[i2]),
                            ) && q.len() > target@.len() by {
                            assert(fs_mid.is_dir(q)) by {
                                let w = choose|i: int|
                                    0 <= i < fs@.dirs.len() && fs@.dirs[i] == q;
                                assert(fs_mid.dirs[w] == q);
                            }
                            let m = choose|m: int|
                                0 <= m < ndr && is_prefix_of(q, target@ + drels[m]) && q.len()
                                    > target@.len();
                            lemma_walked_dir_witness(fs0, ig, src@, target@, drels[m]);
                        }
                    }
                    return Err(FsError::CopyTargetIsDir);
                }
                proof {
                    assert(fs@.next_inode < u64::MAX);
                    assert(tpath@.len() > 0);
                }
                fs.copy_file(&p, &tpath);
                crate::util::push_deep(
                    ops,
                    Op::CopyFile { src: p.duplicate(), target: tpath.duplicate() },
                );
                crate::util::push_deep(ops, Op::SetPerm { path: tpath.duplicate(), perm });
                proof {
                    let post = fs@;
                    assert forall|q: Seq<Seq<char>>| #[trigger] pre_fs.has_file(q) implies
                        post.has_file(q) && post.file_at(q).inode == pre_fs.file_at(
                        q,
                    ).inode by {
                        let w = pre_fs.file_index(q);
                        pre_fs.lemma_file_index(w);
                        assert(post.files[w].path == q);
                        post.lemma_file_index(w);
                    }
                    assert forall|q: Seq<Seq<char>>| #[trigger] post.has_file(q)
                        && !pre_fs.has_file(q) implies q == tpath@ by {
                        let w = post.file_index(q);
                        if w < pre_fs.files.len() {
                            assert(pre_fs.files[w].path == q);
                            pre_fs.lemma_file_index(w);
                        } else {
                            assert(post.files[w] == post.files.last());
                        }
                    }
                    assert forall|q: Seq<Seq<char>>| q != tpath@ && pre_fs.has_file(q) implies
                        #[trigger] post.file_at(q) == pre_fs.file_at(q) by {
                        let w = pre_fs.file_index(q);
                        pre_fs.lemma_file_index(w);
                        assert(post.files[w] == pre_fs.files[w]);
                        post.lemma_file_index(w);
                    }
                    assert(is_prefix_of(target@, tpath@)) by {
                        assert(tpath@.subrange(0, target@.len() as int) =~= target@);
                    }
                    lemma_fs_grow_keeps_cache(pre_fs, fs@, handler.db@);
                    // The copy landed, carrying the source's bytes.
                    assert(fs@.has_file(tpath@)) by {
                        if pre_fs.has_file(tpath@) {
                            let w = pre_fs.file_index(tpath@);
                            pre_fs.lemma_file_index(w);
                            assert(fs@.files[w].path == tpath@);
                        } else {
                            assert(fs@.files.last().path == tpath@);
                        }
                    }
                    assert(fs@.file_at(tpath@).content == fs0.file_at(p@).content) by {
                        assert(!is_prefix_of(target@, p@)) by {
                            assert(is_prefix_of(src@, p@)) by {
                                assert(p@.subrange(0, src@.len() as int) =~= src@);
                            }
                            if is_prefix_of(target@, p@) {
                                if target@.len() <= src@.len() {
                                    lemma_prefix_of_prefix(target@, src@, p@);
                                } else {
                                    lemma_prefix_of_prefix(src@, target@, p@);
                                }
                            }
                        }
                        assert(pre_fs.file_at(p@).content == fs0.file_at(p@).content);
                        if pre_fs.has_file(tpath@) {
                            let w = pre_fs.file_index(tpath@);
                            pre_fs.lemma_file_index(w);
                            fs@.lemma_file_index(w);
                        } else {
                            fs@.lemma_file_index(fs@.files.len() - 1);
                        }
                    }
                }
            },
        }
        proof {
            let post_fs = fs@;
            assert(fs_grows(fs0, post_fs)) by {
                assert forall|q: Seq<Seq<char>>| #[trigger] fs0.has_file(q) implies
                    post_fs.has_file(q) && post_fs.file_at(q).inode == fs0.file_at(
                    q,
                ).inode by {
                    assert(pre_fs.has_file(q));
                    assert(pre_fs.file_at(q).inode == fs0.file_at(q).inode);
                }
                assert forall|q: Seq<Seq<char>>| #[trigger] fs0.is_dir(q) implies
                    post_fs.is_dir(q) by {
                    assert(pre_fs.is_dir(q));
                }
            }
            assert(untouched_outside(fs0, post_fs, target@)) by {
                assert forall|q: Seq<Seq<char>>| !is_prefix_of(target@, q) implies (
                #[trigger] post_fs.has_file(q) <==> fs0.has_file(q)) by {
                    assert(pre_fs.has_file(q) <==> fs0.has_file(q));
                }
                assert forall|q: Seq<Seq<char>>| !is_prefix_of(target@, q) && fs0.has_file(q)
                    implies #[trigger] post_fs.file_at(q) == fs0.file_at(q) by {
                    assert(pre_fs.has_file(q));
                    assert(pre_fs.file_at(q) == fs0.file_at(q));
                }
            }
            assert forall|s: Seq<Seq<char>>| #[trigger] cache_ok(fs0, db0, s) implies cache_ok(
                post_fs,
                handler.db@,
                s,
            ) by {
                assert(cache_ok(pre_fs, pre_db, s));
                assert(cache_ok(pre_fs, handler.db@, s));
                lemma_fs_grow_keeps_cache(pre_fs, post_fs, handler.db@);
            }
            assert forall|m: int|
                0 <= m < k2 + 1 && (crate::paths::extension_spec(
                    (#[trigger] frels[m]).last(),
                ) matches Some(e) && old(handler).basic.link_ext.deep_view().contains(e))
                implies fs@.path_exists(target@ + frels[m]) || cache_ok(
                fs@,
                handler.db@,
                src@ + frels[m],
            ) by {
                if m < k2 {
                    if pre_fs.path_exists(target@ + frels[m]) {
                        assert(fs@.path_exists(target@ + frels[m]));
                    } else {
                        assert(cache_ok(pre_fs, pre_db, src@ + frels[m]));
                        assert(cache_ok(pre_fs, handler.db@, src@ + frels[m]));
                        lemma_fs_grow_keeps_cache(pre_fs, fs@, handler.db@);
                    }
                } else {
                    assert(tpath@ == target@ + frels[m]);
                    assert(p@ == src@ + frels[m]);
                    match op {
                        FileOperation::Skip => {
                            assert(pre_fs.path_exists(tpath@) || cache_ok(
                                pre_fs,
                                handler.db@,
                                p@,
                            ));
                            lemma_fs_grow_keeps_cache(pre_fs, fs@, handler.db@);
                        },
                        FileOperation::Link => {
                            assert(fs@.has_file(tpath@));
                        },
                        FileOperation::Copy { .. } => {
                            assert(fs@.has_file(tpath@)) by {
                                if pre_fs.has_file(tpath@) {
                                    let w = pre_fs.file_index(tpath@);
                                    pre_fs.lemma_file_index(w);
                                    assert(fs@.files[w].path == tpath@);
                                } else {
                                    assert(fs@.files.last().path == tpath@);
                                }
                            }
                        },
                    }
                }
            }
            assert forall|q: Seq<Seq<char>>| #[trigger] fs@.has_file(q) && !fs0.has_file(q)
                implies placed_file_ok(
                fs0,
                fs@,
                ig,
                old(handler).basic.link_ext.deep_view(),
                old(handler).basic.copy_ext.deep_view(),
                src@,
                target@,
                q,
            ) by {
                if pre_fs.has_file(q) {
                    assert(placed_file_ok(
                        fs0,
                        pre_fs,
                        ig,
                        old(handler).basic.link_ext.deep_view(),
                        old(handler).basic.copy_ext.deep_view(),
                        src@,
                        target@,
                        q,
                    ));
                    assert(fs@.file_at(q).inode == pre_fs.file_at(q).inode);
                } else {
                    match op {
                        FileOperation::Skip => {
                            assert(fs@ == pre_fs);
                        },
                        FileOperation::Link => {
                            assert(q == tpath@);
                            assert(tpath@.subrange(target@.len() as int, tpath@.len() as int)
                                =~= frels[k2 as int]);
                            assert(q.last() == frels[k2 as int].last()) by {
                                assert((target@ + frels[k2 as int]).last() == frels[
                                    k2 as int].last());
                            }
                            assert(p@.last() == frels[k2 as int].last()) by {
                                assert((src@ + frels[k2 as int]).last() == frels[
                                    k2 as int].last());
                            }
                            assert(fs@.files.last().path == tpath@);
                            fs@.lemma_file_index(fs@.files.len() - 1);
                            assert(fs@.file_at(q).inode == pre_fs.file_at(p@).inode);
                            assert(pre_fs.file_at(p@).inode == fs0.file_at(p@).inode);
                        },
                        FileOperation::Copy { .. } => {
                            assert(q == tpath@);
                            assert(tpath@.subrange(target@.len() as int, tpath@.len() as int)
                                =~= frels[k2 as int]);
                            assert(q.last() == frels[k2 as int].last()) by {
                                assert((target@ + frels[k2 as int]).last() == frels[
                                    k2 as int].last());
                            }
                            assert(p@.last() == frels[k2 as int].last()) by {
                                assert((src@ + frels[k2 as int]).last() == frels[
                                    k2 as int].last());
                            }
                            assert(fs@.files.last().path == tpath@);
                            fs@.lemma_file_index(fs@.files.len() - 1);
                            assert(fs@.file_at(q).inode == pre_fs.next_inode);
                            assert(fs0.next_inode <= pre_fs.next_inode);
                        },
                    }
                }
            }
            assert forall|m: int|
                0 <= m < k2 + 1 && (crate::paths::extension_spec(
                    (#[trigger] frels[m]).last(),
                ) matches Some(e) && old(handler).basic.copy_ext.deep_view().contains(e)
                    && !old(handler).basic.link_ext.deep_view().contains(e)) implies
                fs@.has_file(target@ + frels[m]) && fs@.file_at(target@ + frels[m]).content
                == fs0.file_at(src@ + frels[m]).content by {
                if m < k2 {
                    assert(pre_fs.has_file(target@ + frels[m]));
                    match op {
                        FileOperation::Skip => {},
                        FileOperation::Link => {
                            // A link never lands on an occupied path.
                            assert(!pre_fs.path_exists(tpath@));
                            assert(target@ + frels[m] != tpath@);
                        },
                        FileOperation::Copy { .. } => {
                            if target@ + frels[m] == tpath@ {
                                // The same mapped path: the copy re-wrote it
                                // from the same source file.
                                lemma_path_append_inj(target@, frels[m], frels[k2 as int]);
                                assert(src@ + frels[m] == p@);
                            }
                        },
                    }
                } else {
                    // The current file: its extension ordered a copy.
                    assert(!crate::handler::ignored_name(ig, p@)) by {
                        assert(p@.last() == rel.last());
                        if ig.contains(rel.last()) {
                            assert(rel[rel.len() - 1] == rel.last());
                        }
                    }
                    match op {
                        FileOperation::Skip => {
                            assert(false);
                        },
                        FileOperation::Link => {
                            assert(false);
                        },
                        FileOperation::Copy { .. } => {},
                    }
                }
            }
            assert(ops.deep_view().subrange(0, ops0.len() as int) =~= ops0);
        }
        k2 = k2 + 1;
    }
    proof {
        assert forall|jj: int| #[trigger] walked_dir(fs0, ig, src@, jj) implies fs@.is_dir(
            mapped_target(src@, target@, fs0.dirs[jj]),
        ) by {
            let m = choose|m: int| 0 <= m < drels.len() && src@ + drels[m] == fs0.dirs[jj];
            assert(fs@.is_dir(target@ + drels[m]));
            assert(target@ + drels[m] =~= mapped_target(src@, target@, fs0.dirs[jj])) by {
                assert(drels[m] =~= fs0.dirs[jj].subrange(
                    src@.len() as int,
                    fs0.dirs[jj].len() as int,
                ));
            }
        }
        assert forall|jj: int|
            #[trigger] walked_file(fs0, ig, src@, jj) && (crate::paths::extension_spec(
                fs0.files[jj].path.last(),
            ) matches Some(e) && old(handler).basic.link_ext.deep_view().contains(e)) implies
            fs@.path_exists(mapped_target(src@, target@, fs0.files[jj].path)) || cache_ok(
            fs@,
            handler.db@,
            fs0.files[jj].path,
        ) by {
            let m = choose|m: int|
                0 <= m < frels.len() && src@ + frels[m] == fs0.files[jj].path;
            assert((src@ + frels[m]).last() == frels[m].last());
            assert(target@ + frels[m] =~= mapped_target(src@, target@, fs0.files[jj].path)) by {
                assert(frels[m] =~= fs0.files[jj].path.subrange(
                    src@.len() as int,
                    fs0.files[jj].path.len() as int,
                ));
            }
        }
        assert forall|jj: int|
            #[trigger] walked_file(fs0, ig, src@, jj) && (crate::paths::extension_spec(
                fs0.files[jj].path.last(),
            ) matches Some(e) && old(handler).basic.copy_ext.deep_view().contains(e)
                && !old(handler).basic.link_ext.deep_view().contains(e)) implies fs@.has_file(
            mapped_target(src@, target@, fs0.files[jj].path),
        ) && fs@.file_at(mapped_target(src@, target@, fs0.files[jj].path)).content
            == fs0.file_at(fs0.files[jj].path).content by {
            let m = choose|m: int|
                0 <= m < frels.len() && src@ + frels[m] == fs0.files[jj].path;
            assert((src@ + frels[m]).last() == frels[m].last());
            assert(target@ + frels[m] =~= mapped_target(src@, target@, fs0.files[jj].path)) by {
                assert(frels[m] =~= fs0.files[jj].path.subrange(
                    src@.len() as int,
                    fs0.files[jj].path.len() as int,
                ));
            }
        }
        assert forall|q: Seq<Seq<char>>| #[trigger] fs@.is_dir(q) && !fs0.is_dir(q) implies
            exists|i2: int|
            walked_dir(fs0, ig, src@, i2) && is_prefix_of(
                q,
                mapped_target(src@, target@, fs0.dirs[i2]),
            ) && q.len() > target@.len() by {
            assert(fs_mid.is_dir(q)) by {
                let w = choose|i: int| 0 <= i < fs@.dirs.len() && fs@.dirs[i] == q;
                assert(fs_mid.dirs[w] == q);
            }
            let m = choose|m: int|
                0 <= m < ndr && is_prefix_of(q, target@ + drels[m]) && q.len()
                    > target@.len();
            lemma_walked_dir_witness(fs0, ig, src@, target@, drels[m]);
        }
    }
    Ok(())
}

/// A live cache record stays live when the filesystem only grows.
proof fn lemma_fs_grow_keeps_cache(
    fs1: FsView,
    fs2: FsView,
    db: crate::db::LinkCacheView,
)
    requires
        fs_grows(fs1, fs2),
    ensures
        forall|s: Seq<Seq<char>>| #[trigger] cache_ok(fs1, db, s) ==> cache_ok(fs2, db, s),
{
    assert forall|s: Seq<Seq<char>>| #[trigger] cache_ok(fs1, db, s) implies cache_ok(
        fs2,
        db,
        s,
    ) by {
        let w = choose|i: int|
            0 <= i < db.records.len() && db.records[i].src == s && fs1.path_exists(
                db.records[i].target,
            );
        assert(fs2.path_exists(db.records[w].target)) by {
            if fs1.has_file(db.records[w].target) {
                assert(fs2.has_file(db.records[w].target));
            } else {
                assert(fs1.is_dir(db.records[w].target));
            }
        }
    }
}

} // verus!
