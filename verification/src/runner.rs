//! The deduplicating reconciler: decides, for every source media file,
//! whether an equivalent already exists in the target tree before creating a
//! new hardlink.
//!
//! The per-file procedure follows a fixed order, first match wins: the
//! extension filter, the cache (trusted only after revalidation, repaired
//! when stale), the ideal-target check, the inode fallback search, and only
//! then creation: parent directories, the hardlink itself, the cache record,
//! and a plain copy of every same-stem sidecar sibling. Every mutation is
//! also appended to an operation log, which the binary replays against the
//! real filesystem and store.

use vstd::prelude::*;

use crate::config::{any_component_ignored, component_ignored, Basic};
use crate::db::{Link, LinkCache, LinkCacheView};
use crate::fsmodel::{count_inode, Fs, FsError, FsView};
use crate::handler::lemma_cache_step_facts;
use crate::paths::{extension_spec, is_prefix_of, stem_spec, FsPath};
use crate::searcher::{visible_under, PathSearcher};

verus! {

/// The context one reconciliation step runs in: the rule's roots, the global
/// options, the path visited relative to the source root, and the dry-run
/// flag. Every file visit derives a child context with its own relative
/// path.
pub struct Ctx {
    pub basic: Basic,
    pub src: FsPath,
    pub target: FsPath,
    pub relative: FsPath,
    pub dry_run: bool,
}

/// How one file was resolved.
#[derive(Clone, Copy, Debug, PartialEq, Eq, Structural)]
pub enum Outcome {
    /// The extension filter skipped the file.
    NotMedia,
    /// A cache record was found and its target is still there.
    CacheValid,
    /// A file or directory already sits at the ideal target path.
    IdealExists,
    /// The fallback search found an existing hardlink partner.
    SearchHit,
    /// Nothing represented the file yet; a fresh link was planned or made.
    Created,
}

/// What one file visit reported.
#[derive(Clone, Copy, Debug)]
pub struct FileReport {
    pub outcome: Outcome,
    /// A stale cache record (target gone) was deleted on the way.
    pub stale_deleted: bool,
    /// The ideal target existed but did not share the source's inode.
    pub inode_mismatch: bool,
}

/// One mutation the library performed on its model, to be replayed against
/// the real filesystem and store.
pub enum Op {
    CreateDirAll { path: FsPath },
    HardLink { src: FsPath, target: FsPath },
    CopyFile { src: FsPath, target: FsPath },
    SetPerm { path: FsPath, perm: crate::link::Perm },
    CacheDelete { id: i32 },
    CacheInsert { src: FsPath, target: FsPath },
}

/// The mathematical value of an `Op`.
pub ghost enum OpView {
    CreateDirAll { path: Seq<Seq<char>> },
    HardLink { src: Seq<Seq<char>>, target: Seq<Seq<char>> },
    CopyFile { src: Seq<Seq<char>>, target: Seq<Seq<char>> },
    SetPerm { path: Seq<Seq<char>>, perm: crate::link::Perm },
    CacheDelete { id: i32 },
    CacheInsert { src: Seq<Seq<char>>, target: Seq<Seq<char>> },
}

impl View for Op {
    type V = OpView;

    open spec fn view(&self) -> OpView {
        match self {
            Op::CreateDirAll { path } => OpView::CreateDirAll { path: path@ },
            Op::HardLink { src, target } => OpView::HardLink { src: src@, target: target@ },
            Op::CopyFile { src, target } => OpView::CopyFile { src: src@, target: target@ },
            Op::SetPerm { path, perm } => OpView::SetPerm { path: path@, perm: *perm },
            Op::CacheDelete { id } => OpView::CacheDelete { id: *id },
            Op::CacheInsert { src, target } => OpView::CacheInsert { src: src@, target: target@ },
        }
    }
}

impl DeepView for Op {
    type V = OpView;

    open spec fn deep_view(&self) -> OpView {
        self.view()
    }
}

/// An operation that touches the filesystem (rather than only the cache).
pub open spec fn is_fs_op(op: OpView) -> bool {
    match op {
        OpView::CreateDirAll { .. } => true,
        OpView::HardLink { .. } => true,
        OpView::CopyFile { .. } => true,
        OpView::SetPerm { .. } => true,
        OpView::CacheDelete { .. } => false,
        OpView::CacheInsert { .. } => false,
    }
}

/// `post` extends `pre` and the appended operations touch only the cache.
pub open spec fn grew_without_fs_ops(pre: Seq<OpView>, post: Seq<OpView>) -> bool {
    &&& pre.len() <= post.len()
    &&& post.subrange(0, pre.len() as int) == pre
    &&& forall|k: int| pre.len() <= k < post.len() ==> !is_fs_op(#[trigger] post[k])
}

/// The full source path a context points at.
pub open spec fn src_path_spec(ctx: Ctx) -> Seq<Seq<char>> {
    ctx.src@ + ctx.relative@
}

/// A file name passes the media filter when its extension is in the set.
pub open spec fn is_media_name(name: Seq<char>, media: Seq<Seq<char>>) -> bool {
    match extension_spec(name) {
        Some(e) => media.contains(e),
        None => false,
    }
}

/// Whether a file's extension marks it as a reconciliation subject.
pub fn is_media(file: &FsPath, media_ext: &Vec<String>) -> (r: bool)
    requires
        file@.len() > 0,
    ensures
        r == is_media_name(file@.last(), media_ext.deep_view()),
{
    match crate::paths::extension_of(file.file_name().as_str()) {
        Some(e) => crate::config::contains_name(media_ext, &e),
        None => false,
    }
}

/// The canonical place a source file should be linked to: a file directly at
/// the source root gains its own stem-named subdirectory; a deeper file
/// mirrors its relative path verbatim.
pub open spec fn ideal_target_spec(target: Seq<Seq<char>>, rel: Seq<Seq<char>>) -> Seq<
    Seq<char>,
> {
    if rel.len() == 1 {
        target.push(stem_spec(rel.last())) + rel
    } else {
        target + rel
    }
}

/// The ideal target path, as `ideal_target_spec` gives it.
pub fn ideal_target(target: &FsPath, rel: &FsPath) -> (r: FsPath)
    requires
        rel@.len() >= 1,
    ensures
        r@ == ideal_target_spec(target@, rel@),
{
    if rel.len() == 1 {
        let stem = crate::paths::stem_of(rel.file_name().as_str());
        let r = target.join(&stem).concat(rel);
        r
    } else {
        target.concat(rel)
    }
}

/// The sibling of `p` carrying extension `e` in place of `p`'s own.
pub open spec fn sibling_with_ext(p: Seq<Seq<char>>, e: Seq<char>) -> Seq<Seq<char>> {
    p.drop_last().push(stem_spec(p.last()) + seq!['.'] + e)
}

/// The fixed sidecar extensions: subtitle, metadata and image formats that
/// ride along with a media file and are copied, never linked.
pub open spec fn sidecar_exts_spec() -> Seq<Seq<char>> {
    seq!["ass"@, "nfo"@, "jpg"@, "png"@, "srt"@]
}

/// The sidecar extensions, as executable strings.
pub fn sidecar_exts() -> (r: Vec<String>)
    ensures
        r.deep_view() == sidecar_exts_spec(),
{
    let mut r: Vec<String> = Vec::new();
    crate::util::push_deep(&mut r, "ass".to_owned());
    crate::util::push_deep(&mut r, "nfo".to_owned());
    crate::util::push_deep(&mut r, "jpg".to_owned());
    crate::util::push_deep(&mut r, "png".to_owned());
    crate::util::push_deep(&mut r, "srt".to_owned());
    proof {
        assert(r.deep_view() =~= sidecar_exts_spec());
    }
    r
}

/// The cache vouches for this source path: some record maps it to a target
/// that still exists. This is the reconciler's convergence criterion — a
/// source file in this state is skipped by the next pass.
pub open spec fn cache_ok(fs: FsView, cache: LinkCacheView, src: Seq<Seq<char>>) -> bool {
    exists|i: int|
        0 <= i < cache.records.len() && (#[trigger] cache.records[i]).src == src
            && fs.path_exists(cache.records[i].target)
}

/// Files and directories only accumulate, and a surviving file keeps its
/// identity: its inode never changes.
pub open spec fn fs_grows(pre: FsView, post: FsView) -> bool {
    &&& forall|q: Seq<Seq<char>>| #[trigger] pre.has_file(q) ==> post.has_file(q)
    &&& forall|q: Seq<Seq<char>>|
        pre.has_file(q) ==> (#[trigger] post.file_at(q)).inode == pre.file_at(q).inode
    &&& forall|q: Seq<Seq<char>>| #[trigger] pre.is_dir(q) ==> post.is_dir(q)
}

/// Every file outside the target tree is exactly as it was.
pub open spec fn untouched_outside(pre: FsView, post: FsView, target: Seq<Seq<char>>) -> bool {
    &&& forall|q: Seq<Seq<char>>|
        !is_prefix_of(target, q) ==> (#[trigger] post.has_file(q) <==> pre.has_file(q))
    &&& forall|q: Seq<Seq<char>>|
        !is_prefix_of(target, q) && pre.has_file(q) ==> #[trigger] post.file_at(q)
            == pre.file_at(q)
}

/// Pushing one entry changes an inode's link count by one or not at all.
proof fn lemma_count_push(s: Seq<crate::fsmodel::FileEntryView>, e: crate::fsmodel::FileEntryView, ino: u64)
    ensures
        count_inode(s.push(e), ino) == count_inode(s, ino) + if e.inode == ino {
            1nat
        } else {
            0nat
        },
{
    assert(s.push(e).drop_last() =~= s);
    assert(s.push(e).last() == e);
}

/// Rewriting an entry in place, inode kept, leaves every link count alone.
proof fn lemma_count_update(
    s: Seq<crate::fsmodel::FileEntryView>,
    i: int,
    e: crate::fsmodel::FileEntryView,
    ino: u64,
)
    requires
        0 <= i < s.len(),
        e.inode == s[i].inode,
    ensures
        count_inode(s.update(i, e), ino) == count_inode(s, ino),
    decreases s.len(),
{
    if i == s.len() - 1 {
        assert(s.update(i, e).drop_last() =~= s.drop_last());
        assert(s.update(i, e).last() == e);
    } else {
        assert(s.update(i, e).drop_last() =~= s.drop_last().update(i, e));
        assert(s.update(i, e).last() == s.last());
        lemma_count_update(s.drop_last(), i, e, ino);
    }
}

/// Appending to equal heads keeps equal heads: concatenation is injective
/// on its right operand.
proof fn lemma_append_right_inj(a: Seq<char>, b: Seq<char>, c: Seq<char>)
    requires
        a + b == a + c,
    ensures
        b == c,
{
    assert(b =~= (a + b).subrange(a.len() as int, (a + b).len() as int));
    assert(c =~= (a + c).subrange(a.len() as int, (a + c).len() as int));
}

/// Distinct sidecar extensions land at distinct sibling paths.
proof fn lemma_sibling_distinct(p: Seq<Seq<char>>, e1: Seq<char>, e2: Seq<char>)
    requires
        p.len() > 0,
        e1 != e2,
    ensures
        sibling_with_ext(p, e1) != sibling_with_ext(p, e2),
{
    if sibling_with_ext(p, e1) == sibling_with_ext(p, e2) {
        let a = stem_spec(p.last()) + seq!['.'];
        assert(sibling_with_ext(p, e1).last() == stem_spec(p.last()) + seq!['.'] + e2);
        assert((stem_spec(p.last()) + seq!['.']) + e1 =~= stem_spec(p.last()) + seq!['.'] + e1);
        assert((stem_spec(p.last()) + seq!['.']) + e2 =~= stem_spec(p.last()) + seq!['.'] + e2);
        lemma_append_right_inj(a, e1, e2);
    }
}

/// Of two leading portions of one path, the shorter is a leading portion of
/// the longer.
pub(crate) proof fn lemma_prefix_of_prefix(a: Seq<Seq<char>>, b: Seq<Seq<char>>, q: Seq<Seq<char>>)
    requires
        is_prefix_of(a, q),
        is_prefix_of(b, q),
        a.len() <= b.len(),
    ensures
        is_prefix_of(a, b),
{
    assert(b.subrange(0, a.len() as int) =~= q.subrange(0, a.len() as int));
}

/// Leading portions chain: a prefix of a prefix is a prefix.
proof fn lemma_prefix_trans(a: Seq<Seq<char>>, b: Seq<Seq<char>>, c: Seq<Seq<char>>)
    requires
        is_prefix_of(a, b),
        is_prefix_of(b, c),
    ensures
        is_prefix_of(a, c),
{
    assert forall|i: int| 0 <= i < a.len() implies c[i] == b[i] by {
        assert(b[i] == c.subrange(0, b.len() as int)[i]);
    }
    assert(c.subrange(0, a.len() as int) =~= b.subrange(0, a.len() as int));
}

/// Create the ideal target's parent chain and the hardlink itself,
/// appending the two filesystem operations to the log.
fn place_link(fs: &mut Fs, file: &FsPath, idealp: &FsPath, ops: &mut Vec<Op>) -> (r: Result<
    (),
    FsError,
>)
    requires
        old(fs)@.wf(),
        old(fs)@.has_file(file@),
        idealp@.len() > 0,
        !old(fs)@.path_exists(idealp@),
    ensures
        final(fs)@.wf(),
        final(ops).deep_view().subrange(0, old(ops).deep_view().len() as int) == old(ops).deep_view(),
        old(ops).deep_view().len() <= final(ops).deep_view().len(),
        match r {
            Ok(()) => {
                &&& final(fs)@.files == old(fs)@.files.push(
                    crate::fsmodel::FileEntryView {
                        path: idealp@,
                        inode: old(fs)@.file_at(file@).inode,
                        content: old(fs)@.file_at(file@).content,
                    },
                )
                &&& forall|q: Seq<Seq<char>>|
                    #[trigger] final(fs)@.is_dir(q) <==> old(fs)@.is_dir(q) || is_prefix_of(
                        q,
                        idealp@.drop_last(),
                    )
                &&& final(fs)@.next_inode == old(fs)@.next_inode
                &&& final(ops).deep_view() == old(ops).deep_view() + seq![
                    OpView::CreateDirAll { path: idealp@.drop_last() },
                    OpView::HardLink { src: file@, target: idealp@ },
                ]
            },
            Err(e) => {
                &&& e == FsError::CreateDirOnFile
                &&& final(fs)@ == old(fs)@
                &&& final(ops).deep_view() == old(ops).deep_view()
                &&& exists|k: int|
                    1 <= k <= idealp@.drop_last().len() && old(fs)@.has_file(
                        #[trigger] idealp@.drop_last().subrange(0, k),
                    )
            },
        },
{
    let parent = idealp.parent();
    match fs.create_dir_all(&parent) {
        Ok(()) => {},
        Err(e) => {
            return Err(e);
        },
    }
    proof {
        assert(!is_prefix_of(idealp@, parent@));
        assert(fs@.files == old(fs)@.files);
        assert(!fs@.has_file(idealp@)) by {
            if fs@.has_file(idealp@) {
                assert(old(fs)@.has_file(idealp@));
            }
        }
        assert(!fs@.is_dir(idealp@));
        assert(is_prefix_of(parent@, parent@)) by {
            assert(parent@.subrange(0, parent@.len() as int) =~= parent@);
        }
        assert(fs@.is_dir(parent@));
        assert(idealp@.drop_last() == parent@);
        assert(fs@.has_file(file@)) by {
            let w = choose|i: int|
                0 <= i < old(fs)@.files.len() && old(fs)@.files[i].path == file@;
            assert(fs@.files[w].path == file@);
        }
        assert(fs@.file_at(file@) == old(fs)@.file_at(file@));
    }
    crate::util::push_deep(ops, Op::CreateDirAll { path: parent });
    let ghost mid_fs = fs@;
    fs.hard_link(file, idealp);
    crate::util::push_deep(
        ops,
        Op::HardLink { src: file.duplicate(), target: idealp.duplicate() },
    );
    proof {
        assert(final(ops).deep_view() =~= old(ops).deep_view() + seq![
            OpView::CreateDirAll { path: idealp@.drop_last() },
            OpView::HardLink { src: file@, target: idealp@ },
        ]);
        assert(final(ops).deep_view().subrange(0, old(ops).deep_view().len() as int) =~= old(ops).deep_view());
        assert forall|q: Seq<Seq<char>>| #[trigger] fs@.is_dir(q) <==> (old(fs)@.is_dir(q)
            || is_prefix_of(q, idealp@.drop_last())) by {
            assert(fs@.dirs == mid_fs.dirs);
            assert(mid_fs.is_dir(q) == fs@.is_dir(q));
            assert(mid_fs.is_dir(q) <==> (old(fs)@.is_dir(q) || is_prefix_of(q, parent@)));
        }
    }
    Ok(())
}

/// Probe each fixed sidecar extension beside the source file and copy the
/// siblings that are present to the matching names beside the new target.
fn copy_sidecars(fs: &mut Fs, ctx: &Ctx, file: &FsPath, idealp: &FsPath, ops: &mut Vec<Op>) -> (r:
    Result<(), FsError>)
    requires
        old(fs)@.wf(),
        ctx.relative@.len() >= 1,
        file@ == ctx.src@ + ctx.relative@,
        idealp@ == ideal_target_spec(ctx.target@, ctx.relative@),
        old(fs)@.is_dir(idealp@.drop_last()),
        old(fs)@.next_inode + 5 <= u64::MAX,
        !is_prefix_of(ctx.target@, ctx.src@),
        !is_prefix_of(ctx.src@, ctx.target@),
    ensures
        final(fs)@.wf(),
        fs_grows(old(fs)@, final(fs)@),
        untouched_outside(old(fs)@, final(fs)@, ctx.target@),
        final(fs)@.dirs == old(fs)@.dirs,
        old(fs)@.next_inode <= final(fs)@.next_inode <= old(fs)@.next_inode + 5,
        final(ops).deep_view().subrange(0, old(ops).deep_view().len() as int) == old(ops).deep_view(),
        old(ops).deep_view().len() <= final(ops).deep_view().len(),
        forall|ino: u64|
            ino < old(fs)@.next_inode ==> count_inode(final(fs)@.files, ino) == count_inode(
                old(fs)@.files,
                ino,
            ),
        forall|q: Seq<Seq<char>>|
            #[trigger] final(fs)@.has_file(q) && !old(fs)@.has_file(q) ==> exists|e: Seq<char>|
                sidecar_exts_spec().contains(e) && q == sibling_with_ext(idealp@, e),
        forall|q: Seq<Seq<char>>|
            #[trigger] final(fs)@.has_file(q) && !old(fs)@.has_file(q) ==> final(fs)@.file_at(
                q,
            ).inode >= old(fs)@.next_inode,
        forall|q: Seq<Seq<char>>|
            old(fs)@.has_file(q) && (#[trigger] final(fs)@.file_at(q)).content != old(fs)@.file_at(q).content ==> exists|e: Seq<char>|
                sidecar_exts_spec().contains(e) && q == sibling_with_ext(idealp@, e) && old(fs)@.has_file(sibling_with_ext(file@, e)) && final(fs)@.file_at(q).content == old(fs)@.file_at(sibling_with_ext(file@, e)).content,
        match r {
            Ok(()) => {
                &&& forall|e: Seq<char>|
                    sidecar_exts_spec().contains(e) && old(fs)@.has_file(
                        sibling_with_ext(file@, e),
                    ) ==> final(fs)@.has_file(#[trigger] sibling_with_ext(idealp@, e))
                        && final(fs)@.file_at(sibling_with_ext(idealp@, e)).content
                        == old(fs)@.file_at(sibling_with_ext(file@, e)).content
                &&& forall|e: Seq<char>|
                    sidecar_exts_spec().contains(e) ==> !old(fs)@.is_dir(
                        #[trigger] sibling_with_ext(file@, e),
                    ) && !(old(fs)@.has_file(sibling_with_ext(file@, e)) && old(fs)@.is_dir(
                        sibling_with_ext(idealp@, e),
                    ))
            },
            Err(e) => {
                &&& (e == FsError::CopySourceNotFile || e == FsError::CopyTargetIsDir)
                &&& exists|x: Seq<char>|
                    sidecar_exts_spec().contains(x) && (old(fs)@.is_dir(
                        #[trigger] sibling_with_ext(file@, x),
                    ) || (old(fs)@.has_file(sibling_with_ext(file@, x)) && old(fs)@.is_dir(
                        sibling_with_ext(idealp@, x),
                    )))
            },
        },
{
    proof {
        // The source-side sibling of any extension sits under the source
        // root, hence outside the target tree; the target-side sibling sits
        // under the target root.
        assert(is_prefix_of(ctx.src@, file@)) by {
            assert(file@.subrange(0, ctx.src@.len() as int) =~= ctx.src@);
        }
        assert(is_prefix_of(ctx.target@, idealp@)) by {
            if ctx.relative@.len() == 1 {
                assert(idealp@.subrange(0, ctx.target@.len() as int) =~= ctx.target@);
            } else {
                assert(idealp@.subrange(0, ctx.target@.len() as int) =~= ctx.target@);
            }
        }
    }
    let exts = sidecar_exts();
    let n: usize = exts.len();
    proof {
        assert(exts.deep_view().len() == 5);
    }
    let mut i: usize = 0;
    while i < n
        invariant
            fs@.wf(),
            n == exts.len(),
            n == 5,
            i <= n,
            exts.deep_view() == sidecar_exts_spec(),
            ctx.relative@.len() >= 1,
            file@ == ctx.src@ + ctx.relative@,
            idealp@ == ideal_target_spec(ctx.target@, ctx.relative@),
            !is_prefix_of(ctx.target@, ctx.src@),
            !is_prefix_of(ctx.src@, ctx.target@),
            is_prefix_of(ctx.src@, file@),
            is_prefix_of(ctx.target@, idealp@),
            old(fs)@.wf(),
            old(fs)@.is_dir(idealp@.drop_last()),
            old(fs)@.next_inode + 5 <= u64::MAX,
            old(fs)@.next_inode <= fs@.next_inode,
            fs@.next_inode <= old(fs)@.next_inode + i,
            fs@.dirs == old(fs)@.dirs,
            fs_grows(old(fs)@, fs@),
            untouched_outside(old(fs)@, fs@, ctx.target@),
            ops.deep_view().subrange(0, old(ops).deep_view().len() as int) == old(ops).deep_view(),
            old(ops).deep_view().len() <= ops.deep_view().len(),
            forall|ino: u64|
                ino < old(fs)@.next_inode ==> count_inode(fs@.files, ino) == count_inode(
                    old(fs)@.files,
                    ino,
                ),
            forall|q: Seq<Seq<char>>|
                #[trigger] fs@.has_file(q) && !old(fs)@.has_file(q) ==> exists|m: int|
                    0 <= m < i && q == sibling_with_ext(idealp@, sidecar_exts_spec()[m]),
            forall|q: Seq<Seq<char>>|
                #[trigger] fs@.has_file(q) && !old(fs)@.has_file(q) ==> fs@.file_at(q).inode
                    >= old(fs)@.next_inode,
            forall|q: Seq<Seq<char>>|
                old(fs)@.has_file(q) && (#[trigger] fs@.file_at(q)).content != old(fs)@.file_at(q).content ==> exists|e: Seq<char>|
                    sidecar_exts_spec().contains(e) && q == sibling_with_ext(idealp@, e) && old(fs)@.has_file(sibling_with_ext(file@, e)) && fs@.file_at(q).content == old(fs)@.file_at(sibling_with_ext(file@, e)).content,
            forall|m: int|
                0 <= m < i && old(fs)@.has_file(
                    sibling_with_ext(file@, sidecar_exts_spec()[m]),
                ) ==> fs@.has_file(#[trigger] sibling_with_ext(idealp@, sidecar_exts_spec()[m]))
                    && fs@.file_at(sibling_with_ext(idealp@, sidecar_exts_spec()[m])).content
                    == old(fs)@.file_at(sibling_with_ext(file@, sidecar_exts_spec()[m])).content,
            forall|m: int|
                0 <= m < i ==> !old(fs)@.is_dir(
                    #[trigger] sibling_with_ext(file@, sidecar_exts_spec()[m]),
                ) && !(old(fs)@.has_file(sibling_with_ext(file@, sidecar_exts_spec()[m]))
                    && old(fs)@.is_dir(sibling_with_ext(idealp@, sidecar_exts_spec()[m]))),
        decreases n - i,
    {
        proof {
            assert(exts.deep_view()[i as int] == exts@[i as int].deep_view());
        }
        let ghost e = sidecar_exts_spec()[i as int];
        let att = file.with_extension(exts[i].as_str());
        let dst = idealp.with_extension(exts[i].as_str());
        proof {
            assert(att@ == sibling_with_ext(file@, e));
            assert(dst@ == sibling_with_ext(idealp@, e));
            // `att` lies under the source root, so outside the target tree.
            assert(is_prefix_of(ctx.src@, att@)) by {
                assert(att@.subrange(0, ctx.src@.len() as int) =~= file@.subrange(
                    0,
                    ctx.src@.len() as int,
                ));
            }
            assert(!is_prefix_of(ctx.target@, att@)) by {
                if is_prefix_of(ctx.target@, att@) {
                    if ctx.target@.len() <= ctx.src@.len() {
                        lemma_prefix_of_prefix(ctx.target@, ctx.src@, att@);
                    } else {
                        lemma_prefix_of_prefix(ctx.src@, ctx.target@, att@);
                    }
                }
            }
            // `dst` lies under the target tree.
            assert(is_prefix_of(ctx.target@, dst@)) by {
                assert(dst@.subrange(0, ctx.target@.len() as int) =~= idealp@.subrange(
                    0,
                    ctx.target@.len() as int,
                ));
            }
            assert(dst@.drop_last() == idealp@.drop_last());
        }
        if fs.is_file(&att) {
            proof {
                assert(old(fs)@.has_file(att@));
            }
            if fs.is_dir(&dst) {
                proof {
                    assert(old(fs)@.is_dir(dst@));
                }
                return Err(FsError::CopyTargetIsDir);
            }
            proof {
                assert(n as int == sidecar_exts_spec().len());
                assert(sidecar_exts_spec().len() == 5);
                assert(fs@.next_inode < u64::MAX);
            }
            let ghost pre_fs = fs@;
            fs.copy_file(&att, &dst);
            crate::util::push_deep(ops, Op::CopyFile { src: att, target: dst });
            proof {
                let post = fs@;
                // Link counts of previously allocated inodes are unchanged.
                assert forall|ino: u64| ino < old(fs)@.next_inode implies count_inode(
                    post.files,
                    ino,
                ) == count_inode(old(fs)@.files, ino) by {
                    if pre_fs.has_file(dst@) {
                        let w = pre_fs.file_index(dst@);
                        pre_fs.lemma_file_index(w);
                        assert(post.files == pre_fs.files.update(w, post.files[w]));
                        assert(post.files[w].inode == pre_fs.files[w].inode);
                        lemma_count_update(pre_fs.files, w, post.files[w], ino);
                    } else {
                        lemma_count_push(pre_fs.files, post.files.last(), ino);
                        assert(post.files.last().inode == pre_fs.next_inode);
                        assert(ino < pre_fs.next_inode);
                    }
                    assert(count_inode(pre_fs.files, ino) == count_inode(old(fs)@.files, ino));
                }
                // Growth and outside-frame facts step from `pre_fs` to `post`.
                assert forall|q: Seq<Seq<char>>| #[trigger] pre_fs.has_file(q) implies
                    post.has_file(q) && post.file_at(q).inode == pre_fs.file_at(q).inode by {
                    let w = pre_fs.file_index(q);
                    pre_fs.lemma_file_index(w);
                    assert(post.files[w].path == q);
                    post.lemma_file_index(w);
                }
                assert forall|q: Seq<Seq<char>>| #[trigger] post.has_file(q) && !pre_fs.has_file(
                    q,
                ) implies q == dst@ by {
                    let w = post.file_index(q);
                    if w < pre_fs.files.len() {
                        assert(pre_fs.files[w].path == q);
                        pre_fs.lemma_file_index(w);
                    }
                }
                assert forall|q: Seq<Seq<char>>| q != dst@ && pre_fs.has_file(q) implies
                    post.file_at(q) == pre_fs.file_at(q) by {
                    let w = pre_fs.file_index(q);
                    pre_fs.lemma_file_index(w);
                    assert(post.files[w] == pre_fs.files[w]);
                    post.lemma_file_index(w);
                }
                // The new copy carries the sibling's original content.
                assert(post.has_file(dst@)) by {
                    if pre_fs.has_file(dst@) {
                        let w = pre_fs.file_index(dst@);
                        assert(post.files[w].path == dst@);
                    } else {
                        assert(post.files.last().path == dst@);
                    }
                }
                assert(post.file_at(dst@).content == old(fs)@.file_at(att@).content) by {
                    assert(pre_fs.file_at(att@).content == old(fs)@.file_at(att@).content);
                    if pre_fs.has_file(dst@) {
                        let w = pre_fs.file_index(dst@);
                        post.lemma_file_index(w);
                    } else {
                        post.lemma_file_index(post.files.len() - 1);
                    }
                }
                // Earlier sidecar results survive: their paths differ.
                assert forall|m: int|
                    0 <= m < i + 1 && old(fs)@.has_file(
                        sibling_with_ext(file@, sidecar_exts_spec()[m]),
                    ) implies fs@.has_file(
                    #[trigger] sibling_with_ext(idealp@, sidecar_exts_spec()[m]),
                ) && fs@.file_at(sibling_with_ext(idealp@, sidecar_exts_spec()[m])).content
                    == old(fs)@.file_at(sibling_with_ext(file@, sidecar_exts_spec()[m])).content by {
                    if m < i {
                        if sidecar_exts_spec()[m] != e {
                            lemma_sibling_distinct(idealp@, sidecar_exts_spec()[m], e);
                        }
                    }
                }
            }
        } else {
            if fs.exists_path(&att) {
                proof {
                    assert(fs@.is_dir(att@));
                    assert(old(fs)@.is_dir(att@));
                }
                return Err(FsError::CopySourceNotFile);
            }
            proof {
                assert(!old(fs)@.has_file(att@));
            }
        }
        i = i + 1;
    }
    proof {
        assert forall|e: Seq<char>|
            sidecar_exts_spec().contains(e) && old(fs)@.has_file(sibling_with_ext(file@, e))
            implies fs@.has_file(#[trigger] sibling_with_ext(idealp@, e)) && fs@.file_at(
            sibling_with_ext(idealp@, e),
        ).content == old(fs)@.file_at(sibling_with_ext(file@, e)).content by {
            let m = choose|m: int|
                0 <= m < sidecar_exts_spec().len() && sidecar_exts_spec()[m] == e;
        }
        assert forall|e: Seq<char>| sidecar_exts_spec().contains(e) implies !old(fs)@.is_dir(
            #[trigger] sibling_with_ext(file@, e),
        ) && !(old(fs)@.has_file(sibling_with_ext(file@, e)) && old(fs)@.is_dir(
            sibling_with_ext(idealp@, e),
        )) by {
            let m = choose|m: int|
                0 <= m < sidecar_exts_spec().len() && sidecar_exts_spec()[m] == e;
        }
    }
    Ok(())
}

/// Growth composes.
proof fn lemma_fs_grows_trans(a: FsView, b: FsView, c: FsView)
    requires
        fs_grows(a, b),
        fs_grows(b, c),
    ensures
        fs_grows(a, c),
{
    assert forall|q: Seq<Seq<char>>| #[trigger] a.has_file(q) implies c.has_file(q) by {
        assert(b.has_file(q));
    }
    assert forall|q: Seq<Seq<char>>| a.has_file(q) implies (#[trigger] c.file_at(q)).inode
        == a.file_at(q).inode by {
        assert(b.has_file(q));
        assert(b.file_at(q).inode == a.file_at(q).inode);
    }
    assert forall|q: Seq<Seq<char>>| #[trigger] a.is_dir(q) implies c.is_dir(q) by {
        assert(b.is_dir(q));
    }
}

/// The outside-the-target frame composes.
proof fn lemma_untouched_trans(a: FsView, b: FsView, c: FsView, t: Seq<Seq<char>>)
    requires
        untouched_outside(a, b, t),
        untouched_outside(b, c, t),
    ensures
        untouched_outside(a, c, t),
{
    assert forall|q: Seq<Seq<char>>| !is_prefix_of(t, q) implies (#[trigger] c.has_file(q)
        <==> a.has_file(q)) by {
        assert(b.has_file(q) <==> a.has_file(q));
    }
    assert forall|q: Seq<Seq<char>>| !is_prefix_of(t, q) && a.has_file(q) implies
        #[trigger] c.file_at(q) == a.file_at(q) by {
        assert(b.has_file(q));
        assert(b.file_at(q) == a.file_at(q));
    }
}

/// A source whose record points at a live target keeps that standing when
/// the filesystem only grows and every foreign record survives.
proof fn lemma_cache_ok_preserved(
    fs0: FsView,
    fs2: FsView,
    c0: LinkCacheView,
    c2: LinkCacheView,
    sp: Seq<Seq<char>>,
)
    requires
        c0.wf(),
        c2.wf(),
        fs_grows(fs0, fs2),
        !cache_ok(fs0, c0, sp),
        forall|s: Seq<Seq<char>>|
            s != sp && #[trigger] c0.has_src(s) ==> c2.has_src(s) && c2.record_for(s)
                == c0.record_for(s),
    ensures
        forall|s: Seq<Seq<char>>| #[trigger] cache_ok(fs0, c0, s) ==> cache_ok(fs2, c2, s),
{
    assert forall|s: Seq<Seq<char>>| #[trigger] cache_ok(fs0, c0, s) implies cache_ok(
        fs2,
        c2,
        s,
    ) by {
        let w = choose|i: int|
            0 <= i < c0.records.len() && c0.records[i].src == s && fs0.path_exists(
                c0.records[i].target,
            );
        c0.lemma_record_index(w);
        assert(s != sp);
        assert(c2.has_src(s) && c2.record_for(s) == c0.records[w]);
        let w2 = c2.record_index(s);
        assert(c2.records[w2] == c0.records[w]);
        assert(fs2.path_exists(c0.records[w].target)) by {
            if fs0.has_file(c0.records[w].target) {
                assert(fs2.has_file(c0.records[w].target));
            } else {
                assert(fs0.is_dir(c0.records[w].target));
            }
        }
    }
}

/// The per-file reconciliation procedure, in its fixed order: the extension
/// filter, the revalidated cache, the ideal-target check, the inode fallback
/// search, and creation with sidecar copies. Appends every mutation it makes
/// to `ops`.
#[verifier::rlimit(100)]
pub fn run_on_file(
    fs: &mut Fs,
    cache: &mut LinkCache,
    searcher: &mut PathSearcher,
    ctx: &Ctx,
    ops: &mut Vec<Op>,
) -> (r: Result<FileReport, FsError>)
    requires
        old(fs)@.wf(),
        old(cache)@.wf(),
        old(searcher)@.wf(),
        ctx.relative@.len() >= 1,
        old(fs)@.has_file(src_path_spec(*ctx)),
        old(cache)@.next_id < i32::MAX,
        old(fs)@.next_inode + 5 <= u64::MAX,
        old(searcher)@.ignore == ctx.basic.ignore.deep_view(),
        !is_prefix_of(ctx.src@, ctx.target@),
        !is_prefix_of(ctx.target@, ctx.src@),
    ensures
        final(fs)@.wf(),
        final(cache)@.wf(),
        final(searcher)@.wf(),
        old(cache)@.next_id <= final(cache)@.next_id <= old(cache)@.next_id + 1,
        old(fs)@.next_inode <= final(fs)@.next_inode <= old(fs)@.next_inode + 5,
        final(searcher)@.ignore == old(searcher)@.ignore,
        fs_grows(old(fs)@, final(fs)@),
        untouched_outside(old(fs)@, final(fs)@, ctx.target@),
        final(ops).deep_view().subrange(0, old(ops).deep_view().len() as int) == old(
            ops,
        ).deep_view(),
        old(ops).deep_view().len() <= final(ops).deep_view().len(),
        forall|s: Seq<Seq<char>>|
            #[trigger] cache_ok(old(fs)@, old(cache)@, s) ==> cache_ok(
                final(fs)@,
                final(cache)@,
                s,
            ),
        forall|q: Seq<Seq<char>>|
            #[trigger] final(fs)@.is_dir(q) && !old(fs)@.is_dir(q) ==> is_prefix_of(
                q,
                ideal_target_spec(ctx.target@, ctx.relative@).drop_last(),
            ),
        forall|s: Seq<Seq<char>>|
            #[trigger] final(cache)@.has_src(s) && !old(cache)@.has_src(s) ==> s
                == src_path_spec(*ctx),
        forall|s: Seq<Seq<char>>|
            old(cache)@.has_src(s) && !(#[trigger] final(cache)@.has_src(s)) ==> s
                == src_path_spec(*ctx),
        match r {
            Ok(rep) => {
                let sp = src_path_spec(*ctx);
                let media = is_media_name(ctx.relative@.last(), ctx.basic.media_ext.deep_view());
                let b1 = cache_ok(old(fs)@, old(cache)@, sp);
                let ideal = ideal_target_spec(ctx.target@, ctx.relative@);
                let b2 = old(fs)@.path_exists(ideal);
                let ino = old(fs)@.file_at(sp).inode;
                &&& (rep.outcome == Outcome::NotMedia <==> !media)
                &&& (rep.outcome == Outcome::CacheValid <==> media && b1)
                &&& (rep.outcome == Outcome::IdealExists <==> media && !b1 && b2)
                &&& (rep.outcome == Outcome::SearchHit ==> media && !b1 && !b2 && count_inode(
                    old(fs)@.files,
                    ino,
                ) > 1)
                &&& (rep.outcome == Outcome::Created ==> media && !b1 && !b2)
                &&& (media && !b1 && !b2 && count_inode(old(fs)@.files, ino) <= 1
                    ==> rep.outcome == Outcome::Created)
                &&& (rep.stale_deleted <==> media && !b1 && old(cache)@.has_src(sp))
                &&& ((rep.outcome == Outcome::NotMedia || rep.outcome == Outcome::CacheValid)
                    ==> {
                    &&& final(fs)@ == old(fs)@
                    &&& final(cache)@ == old(cache)@
                    &&& final(searcher)@ == old(searcher)@
                    &&& final(ops).deep_view() == old(ops).deep_view()
                })
                &&& (rep.outcome == Outcome::IdealExists ==> {
                    &&& final(fs)@ == old(fs)@
                    &&& cache_ok(final(fs)@, final(cache)@, sp)
                    &&& final(cache)@.has_src(sp)
                    &&& final(cache)@.record_for(sp).target == ideal
                    &&& grew_without_fs_ops(old(ops).deep_view(), final(ops).deep_view())
                })
                &&& (rep.outcome == Outcome::SearchHit ==> {
                    &&& final(fs)@ == old(fs)@
                    &&& cache_ok(final(fs)@, final(cache)@, sp)
                    &&& final(cache)@.has_src(sp)
                    &&& old(fs)@.has_file(final(cache)@.record_for(sp).target)
                    &&& old(fs)@.file_at(final(cache)@.record_for(sp).target).inode == ino
                    &&& grew_without_fs_ops(old(ops).deep_view(), final(ops).deep_view())
                })
                &&& (rep.outcome == Outcome::Created && ctx.dry_run ==> {
                    &&& final(fs)@ == old(fs)@
                    &&& grew_without_fs_ops(old(ops).deep_view(), final(ops).deep_view())
                    &&& final(cache)@.next_id == old(cache)@.next_id
                    &&& !final(cache)@.has_src(sp)
                    &&& final(ops).deep_view() == old(ops).deep_view() + (if rep.stale_deleted {
                        seq![OpView::CacheDelete { id: old(cache)@.record_for(sp).id }]
                    } else {
                        Seq::<OpView>::empty()
                    })
                })
                &&& (rep.outcome == Outcome::Created && !ctx.dry_run ==> {
                    &&& final(fs)@.has_file(ideal)
                    &&& final(fs)@.file_at(ideal).inode == ino
                    &&& final(fs)@.file_at(ideal).content == old(fs)@.file_at(sp).content
                    &&& cache_ok(final(fs)@, final(cache)@, sp)
                    &&& final(cache)@.has_src(sp)
                    &&& final(cache)@.record_for(sp).target == ideal
                    &&& count_inode(final(fs)@.files, ino) == count_inode(old(fs)@.files, ino)
                        + 1
                    &&& forall|q: Seq<Seq<char>>|
                        #[trigger] final(fs)@.is_dir(q) <==> old(fs)@.is_dir(q) || is_prefix_of(
                            q,
                            ideal.drop_last(),
                        )
                    &&& forall|q: Seq<Seq<char>>|
                        #[trigger] final(fs)@.has_file(q) && !old(fs)@.has_file(q) ==> q == ideal
                            || exists|e: Seq<char>|
                            sidecar_exts_spec().contains(e) && q == sibling_with_ext(ideal, e)
                    &&& forall|e: Seq<char>|
                        sidecar_exts_spec().contains(e) && old(fs)@.has_file(
                            sibling_with_ext(sp, e),
                        ) ==> final(fs)@.has_file(#[trigger] sibling_with_ext(ideal, e))
                            && final(fs)@.file_at(sibling_with_ext(ideal, e)).content == old(
                            fs,
                        )@.file_at(sibling_with_ext(sp, e)).content
                    &&& forall|q: Seq<Seq<char>>|
                        #[trigger] final(fs)@.has_file(q) && !old(fs)@.has_file(q) && q != ideal
                            ==> final(fs)@.file_at(q).inode >= old(fs)@.next_inode
                })
                &&& (rep.outcome == Outcome::Created && count_inode(old(fs)@.files, ino) > 1
                    ==> forall|j: int|
                    0 <= j < old(fs)@.files.len() && visible_under(
                        ctx.basic.ignore.deep_view(),
                        ctx.target@,
                        (#[trigger] old(fs)@.files[j]).path,
                    ) ==> old(fs)@.files[j].inode != ino)
                &&& (media && (rep.outcome != Outcome::Created || !ctx.dry_run) ==> cache_ok(
                    final(fs)@,
                    final(cache)@,
                    sp,
                ))
            },
            Err(e) => {
                let sp = src_path_spec(*ctx);
                let ideal = ideal_target_spec(ctx.target@, ctx.relative@);
                &&& !ctx.dry_run
                &&& is_media_name(ctx.relative@.last(), ctx.basic.media_ext.deep_view())
                &&& !cache_ok(old(fs)@, old(cache)@, sp)
                &&& !old(fs)@.path_exists(ideal)
                &&& (e == FsError::CreateDirOnFile || e == FsError::CopySourceNotFile || e
                    == FsError::CopyTargetIsDir)
                &&& (e == FsError::CreateDirOnFile ==> exists|k: int|
                    1 <= k <= ideal.drop_last().len() && old(fs)@.has_file(
                        #[trigger] ideal.drop_last().subrange(0, k),
                    ))
                &&& ((e == FsError::CopySourceNotFile || e == FsError::CopyTargetIsDir)
                    ==> exists|x: Seq<char>|
                    sidecar_exts_spec().contains(x) && (old(fs)@.is_dir(
                        #[trigger] sibling_with_ext(sp, x),
                    ) || (old(fs)@.has_file(sibling_with_ext(sp, x)) && old(fs)@.is_dir(
                        sibling_with_ext(ideal, x),
                    ))))
            },
        },
{
    let ghost fs0 = old(fs)@;
    let ghost cache0 = old(cache)@;
    let ghost ops0 = old(ops).deep_view();
    let ghost sp = src_path_spec(*ctx);
    let file = ctx.src.concat(&ctx.relative);
    proof {
        assert(file@ == sp);
        assert(file@.len() >= 1);
        assert(file@.last() == ctx.relative@.last());
    }
    // Extension filter: not media, nothing to do.
    if !is_media(&file, &ctx.basic.media_ext) {
        return Ok(
            FileReport { outcome: Outcome::NotMedia, stale_deleted: false, inode_mismatch: false },
        );
    }
    // Cache lookup; trust the record only if its target is still there.
    let mut stale_deleted = false;
    let mut hit = false;
    let mut hit_id: i32 = 0;
    let mut hit_valid = false;
    match Link::from_src(&file, cache) {
        Some(rec) => {
            hit = true;
            hit_id = rec.id;
            hit_valid = fs.exists_path(&rec.target);
        },
        None => {},
    }
    proof {
        if hit && hit_valid {
            let w = cache0.record_index(sp);
            assert(cache_ok(fs0, cache0, sp));
        } else {
            assert(!cache_ok(fs0, cache0, sp)) by {
                if cache_ok(fs0, cache0, sp) {
                    let w = choose|i: int|
                        0 <= i < cache0.records.len() && cache0.records[i].src == sp
                            && fs0.path_exists(cache0.records[i].target);
                    cache0.lemma_record_index(w);
                }
            }
        }
    }
    if hit {
        if hit_valid {
            return Ok(
                FileReport {
                    outcome: Outcome::CacheValid,
                    stale_deleted: false,
                    inode_mismatch: false,
                },
            );
        }
        proof {
            let w = cache0.record_index(sp);
            cache0.lemma_record_index(w);
        }
        Link::delete(hit_id, cache);
        crate::util::push_deep(ops, Op::CacheDelete { id: hit_id });
        stale_deleted = true;
    }
    let ghost cache1 = cache@;
    let ghost ops1 = ops.deep_view();
    proof {
        assert(!cache1.has_src(sp)) by {
            if hit {
                assert(cache0.record_for(sp).id == hit_id);
            }
        }
        assert(cache1.next_id == cache0.next_id);
        assert forall|s: Seq<Seq<char>>| #[trigger] cache1.has_src(s) implies cache0.has_src(
            s,
        ) by {}
        assert forall|s: Seq<Seq<char>>| cache0.has_src(s) && !(#[trigger] cache1.has_src(s))
            implies s == sp by {
            if hit && s != sp {
                assert(cache0.record_for(s).id == hit_id);
                let ws = cache0.record_index(s);
                cache0.lemma_record_index(ws);
                let wsp = cache0.record_index(sp);
                cache0.lemma_record_index(wsp);
                if ws < wsp {
                    assert(cache0.records[ws].id != cache0.records[wsp].id);
                } else if wsp < ws {
                    assert(cache0.records[wsp].id != cache0.records[ws].id);
                }
            }
        }
        // Every foreign record survived the stale deletion.
        assert forall|s: Seq<Seq<char>>| s != sp && #[trigger] cache0.has_src(s) implies
            cache1.has_src(s) && cache1.record_for(s) == cache0.record_for(s) by {
            if hit {
                let w = cache0.record_index(s);
                cache0.lemma_record_index(w);
                let wsp = cache0.record_index(sp);
                cache0.lemma_record_index(wsp);
                assert(w != wsp);
                if w < wsp {
                    assert(cache0.records[w].id != cache0.records[wsp].id);
                } else {
                    assert(cache0.records[wsp].id != cache0.records[w].id);
                }
            }
        }
        assert(ops1.subrange(0, ops0.len() as int) =~= ops0);
        assert(grew_without_fs_ops(ops0, ops1));
    }
    // Ideal-target check: if something already sits there, record and skip.
    let idealp = ideal_target(&ctx.target, &ctx.relative);
    proof {
        assert(idealp@.len() >= 1);
        assert(is_prefix_of(ctx.target@, idealp@)) by {
            assert(idealp@.subrange(0, ctx.target@.len() as int) =~= ctx.target@);
        }
    }
    if fs.exists_path(&idealp) {
        let mism: bool = if fs.is_file(&idealp) {
            fs.inode_of(&idealp) != fs.inode_of(&file)
        } else {
            true
        };
        Link::link(&file, &idealp, cache);
        crate::util::push_deep(
            ops,
            Op::CacheInsert { src: file.duplicate(), target: idealp.duplicate() },
        );
        proof {
            let c2 = cache@;
            c2.lemma_record_index(c2.records.len() - 1);
            assert(c2.record_for(sp).target == idealp@);
            assert(cache_ok(fs@, c2, sp));
            assert forall|s: Seq<Seq<char>>| s != sp && #[trigger] cache0.has_src(s) implies
                c2.has_src(s) && c2.record_for(s) == cache0.record_for(s) by {
                let w1 = cache1.record_index(s);
                cache1.lemma_record_index(w1);
                assert(c2.records[w1] == cache1.records[w1]);
                c2.lemma_record_index(w1);
            }
            lemma_cache_ok_preserved(fs0, fs@, cache0, c2, sp);
            lemma_cache_step_facts(fs0, cache0, cache1, c2, sp);
            assert(ops.deep_view().subrange(0, ops0.len() as int) =~= ops0);
            assert(grew_without_fs_ops(ops0, ops.deep_view()));
        }
        return Ok(
            FileReport { outcome: Outcome::IdealExists, stale_deleted, inode_mismatch: mism },
        );
    }
    // Inode fallback search: only once the file is known to have another
    // name somewhere (hardlink count above one).
    let nl = fs.nlink_of(&file);
    let ghost ino0 = fs0.file_at(sp).inode;
    if nl > 1 {
        let ino = fs.inode_of(&file);
        let search_result = searcher.search(fs, ino, &ctx.target);
        match search_result {
            Some(found) => {
                Link::link(&file, &found, cache);
                crate::util::push_deep(
                    ops,
                    Op::CacheInsert { src: file.duplicate(), target: found.duplicate() },
                );
                proof {
                    let c2 = cache@;
                    c2.lemma_record_index(c2.records.len() - 1);
                    assert(c2.record_for(sp).target == found@);
                    assert(cache_ok(fs@, c2, sp));
                    assert forall|s: Seq<Seq<char>>| s != sp && #[trigger] cache0.has_src(s)
                        implies c2.has_src(s) && c2.record_for(s) == cache0.record_for(s) by {
                        let w1 = cache1.record_index(s);
                        cache1.lemma_record_index(w1);
                        assert(c2.records[w1] == cache1.records[w1]);
                        c2.lemma_record_index(w1);
                    }
                    lemma_cache_ok_preserved(fs0, fs@, cache0, c2, sp);
                    lemma_cache_step_facts(fs0, cache0, cache1, c2, sp);
                    assert(ops.deep_view().subrange(0, ops0.len() as int) =~= ops0);
                    assert(grew_without_fs_ops(ops0, ops.deep_view()));
                }
                return Ok(
                    FileReport {
                        outcome: Outcome::SearchHit,
                        stale_deleted,
                        inode_mismatch: false,
                    },
                );
            },
            None => {},
        }
    }
    // Nothing represents this file yet: create, unless this is a rehearsal.
    if ctx.dry_run {
        proof {
            lemma_cache_ok_preserved(fs0, fs@, cache0, cache1, sp);
            if stale_deleted {
                assert(cache0.record_for(sp).id == hit_id);
                assert(ops.deep_view() =~= ops0 + seq![
                    OpView::CacheDelete { id: cache0.record_for(sp).id },
                ]);
            } else {
                assert(ops.deep_view() =~= ops0 + Seq::<OpView>::empty());
            }
        }
        return Ok(
            FileReport { outcome: Outcome::Created, stale_deleted, inode_mismatch: false },
        );
    }
    match place_link(fs, &file, &idealp, ops) {
        Ok(()) => {},
        Err(e) => {
            proof {
                lemma_cache_ok_preserved(fs0, fs@, cache0, cache1, sp);
                assert(ops.deep_view().subrange(0, ops0.len() as int) =~= ops0);
            }
            return Err(e);
        },
    }
    let ghost fs1 = fs@;
    proof {
        // The new hardlink: present, with the source's inode and content.
        assert(fs1.files.last() == crate::fsmodel::FileEntryView {
            path: idealp@,
            inode: fs0.file_at(sp).inode,
            content: fs0.file_at(sp).content,
        });
        fs1.lemma_file_index(fs1.files.len() - 1);
        assert(fs1.has_file(idealp@));
        assert(fs_grows(fs0, fs1)) by {
            assert forall|q: Seq<Seq<char>>| #[trigger] fs0.has_file(q) implies fs1.has_file(q)
                && fs1.file_at(q).inode == fs0.file_at(q).inode by {
                let w = fs0.file_index(q);
                fs0.lemma_file_index(w);
                assert(fs1.files[w] == fs0.files[w]);
                fs1.lemma_file_index(w);
            }
        }
        assert(untouched_outside(fs0, fs1, ctx.target@)) by {
            assert forall|q: Seq<Seq<char>>| !is_prefix_of(ctx.target@, q) implies (
            #[trigger] fs1.has_file(q) <==> fs0.has_file(q)) by {
                if fs1.has_file(q) && !fs0.has_file(q) {
                    let w = fs1.file_index(q);
                    if w < fs0.files.len() {
                        assert(fs0.files[w].path == q);
                        fs0.lemma_file_index(w);
                    } else {
                        assert(q == idealp@);
                    }
                }
                if fs0.has_file(q) {
                    let w = fs0.file_index(q);
                    fs0.lemma_file_index(w);
                    assert(fs1.files[w].path == q);
                }
            }
            assert forall|q: Seq<Seq<char>>| !is_prefix_of(ctx.target@, q) && fs0.has_file(q)
                implies #[trigger] fs1.file_at(q) == fs0.file_at(q) by {
                let w = fs0.file_index(q);
                fs0.lemma_file_index(w);
                assert(fs1.files[w] == fs0.files[w]);
                fs1.lemma_file_index(w);
            }
        }
        lemma_count_push(fs0.files, fs1.files.last(), ino0);
        assert(count_inode(fs1.files, ino0) == count_inode(fs0.files, ino0) + 1);
    }
    Link::link(&file, &idealp, cache);
    crate::util::push_deep(
        ops,
        Op::CacheInsert { src: file.duplicate(), target: idealp.duplicate() },
    );
    let ghost cache2 = cache@;
    proof {
        cache2.lemma_record_index(cache2.records.len() - 1);
        assert(cache2.record_for(sp).target == idealp@);
        assert forall|s: Seq<Seq<char>>| s != sp && #[trigger] cache0.has_src(s) implies
            cache2.has_src(s) && cache2.record_for(s) == cache0.record_for(s) by {
            let w1 = cache1.record_index(s);
            cache1.lemma_record_index(w1);
            assert(cache2.records[w1] == cache1.records[w1]);
            cache2.lemma_record_index(w1);
        }
        lemma_cache_step_facts(fs0, cache0, cache1, cache2, sp);
    }
    match copy_sidecars(fs, ctx, &file, &idealp, ops) {
        Ok(()) => {},
        Err(e) => {
            proof {
                lemma_fs_grows_trans(fs0, fs1, fs@);
                lemma_untouched_trans(fs0, fs1, fs@, ctx.target@);
                lemma_cache_ok_preserved(fs0, fs@, cache0, cache2, sp);
                assert(ops.deep_view().subrange(0, ops0.len() as int) =~= ops0);
                assert forall|q: Seq<Seq<char>>| #[trigger] fs@.is_dir(q) && !fs0.is_dir(q)
                    implies is_prefix_of(q, idealp@.drop_last()) by {
                    assert(fs@.dirs == fs1.dirs);
                    assert(fs1.is_dir(q) == fs@.is_dir(q));
                    assert(fs1.is_dir(q) <==> (fs0.is_dir(q) || is_prefix_of(
                        q,
                        idealp@.drop_last(),
                    )));
                }
                // The obstruction the copy ran into existed before the pass
                // touched anything: the link step only added the ideal entry
                // and directories above it.
                let parent = idealp@.drop_last();
                let x = choose|x: Seq<char>|
                    sidecar_exts_spec().contains(x) && (fs1.is_dir(
                        #[trigger] sibling_with_ext(file@, x),
                    ) || (fs1.has_file(sibling_with_ext(file@, x)) && fs1.is_dir(
                        sibling_with_ext(idealp@, x),
                    )));
                let sib = sibling_with_ext(file@, x);
                let sdst = sibling_with_ext(idealp@, x);
                assert(is_prefix_of(ctx.src@, sib)) by {
                    assert(sib.subrange(0, ctx.src@.len() as int) =~= file@.subrange(
                        0,
                        ctx.src@.len() as int,
                    ));
                    assert(file@.subrange(0, ctx.src@.len() as int) =~= ctx.src@);
                }
                if fs1.is_dir(sib) {
                    assert(fs0.is_dir(sib)) by {
                        if !fs0.is_dir(sib) {
                            assert(is_prefix_of(sib, parent));
                            assert(is_prefix_of(ctx.target@, parent)) by {
                                assert(parent.subrange(0, ctx.target@.len() as int)
                                    =~= idealp@.subrange(0, ctx.target@.len() as int));
                                assert(idealp@.subrange(0, ctx.target@.len() as int)
                                    =~= ctx.target@);
                            }
                            if sib.len() <= ctx.target@.len() {
                                lemma_prefix_of_prefix(sib, ctx.target@, parent);
                                lemma_prefix_trans(ctx.src@, sib, ctx.target@);
                            } else {
                                lemma_prefix_of_prefix(ctx.target@, sib, parent);
                                if ctx.target@.len() <= ctx.src@.len() {
                                    lemma_prefix_of_prefix(ctx.target@, ctx.src@, sib);
                                } else {
                                    lemma_prefix_of_prefix(ctx.src@, ctx.target@, sib);
                                }
                            }
                        }
                    }
                } else {
                    assert(fs1.has_file(sib) && fs1.is_dir(sdst));
                    assert(fs0.has_file(sib)) by {
                        let w = fs1.file_index(sib);
                        fs1.lemma_file_index(w);
                        if w == fs1.files.len() - 1 {
                            assert(sib == idealp@);
                            assert(is_prefix_of(ctx.target@, idealp@)) by {
                                assert(idealp@.subrange(0, ctx.target@.len() as int)
                                    =~= ctx.target@);
                            }
                            if ctx.target@.len() <= ctx.src@.len() {
                                lemma_prefix_of_prefix(ctx.target@, ctx.src@, sib);
                            } else {
                                lemma_prefix_of_prefix(ctx.src@, ctx.target@, sib);
                            }
                        } else {
                            assert(fs0.files[w].path == sib);
                            fs0.lemma_file_index(w);
                        }
                    }
                    assert(fs0.is_dir(sdst)) by {
                        if !fs0.is_dir(sdst) {
                            assert(is_prefix_of(sdst, parent));
                            assert(sdst.len() == idealp@.len());
                        }
                    }
                }
            }
            return Err(e);
        },
    }
    proof {
        let fs2 = fs@;
        lemma_fs_grows_trans(fs0, fs1, fs2);
        lemma_untouched_trans(fs0, fs1, fs2, ctx.target@);
        lemma_cache_ok_preserved(fs0, fs2, cache0, cache2, sp);
        // The ideal entry survived the sidecar copies, content included.
        assert(fs2.has_file(idealp@));
        assert(fs2.file_at(idealp@).inode == ino0);
        assert(fs2.file_at(idealp@).content == fs0.file_at(sp).content) by {
            if fs2.file_at(idealp@).content != fs1.file_at(idealp@).content {
                let e = choose|e: Seq<char>|
                    sidecar_exts_spec().contains(e) && idealp@ == sibling_with_ext(idealp@, e)
                        && fs1.has_file(sibling_with_ext(file@, e)) && fs2.file_at(
                        idealp@,
                    ).content == fs1.file_at(sibling_with_ext(file@, e)).content;
                assert(sibling_with_ext(file@, e) == file@) by {
                    assert(idealp@.last() == sibling_with_ext(idealp@, e).last());
                    assert(file@.last() == idealp@.last());
                    assert(sibling_with_ext(file@, e).last() == sibling_with_ext(
                        idealp@,
                        e,
                    ).last());
                    assert(sibling_with_ext(file@, e) =~= file@.drop_last().push(
                        sibling_with_ext(file@, e).last(),
                    ));
                    assert(file@ =~= file@.drop_last().push(file@.last()));
                }
                assert(fs1.file_at(file@).content == fs0.file_at(sp).content);
            }
        }
        // Counts: the copies allocated only fresh inodes.
        assert(ino0 < fs1.next_inode);
        assert(count_inode(fs2.files, ino0) == count_inode(fs0.files, ino0) + 1);
        // Directory growth is exactly the ideal parent chain.
        assert forall|q: Seq<Seq<char>>| #[trigger] fs2.is_dir(q) <==> (fs0.is_dir(q)
            || is_prefix_of(q, idealp@.drop_last())) by {
            assert(fs2.dirs == fs1.dirs);
            assert(fs2.is_dir(q) == fs1.is_dir(q));
            assert(fs1.is_dir(q) <==> (fs0.is_dir(q) || is_prefix_of(q, idealp@.drop_last())));
        }
        // The fresh record's target is the new link.
        assert(cache_ok(fs2, cache2, sp)) by {
            assert(cache2.records[cache2.records.len() - 1].src == sp);
            assert(fs2.path_exists(idealp@));
        }
        // New files are the link or sidecar copies.
        assert forall|q: Seq<Seq<char>>| #[trigger] fs2.has_file(q) && !fs0.has_file(q) implies q
            == idealp@ || exists|e: Seq<char>|
            sidecar_exts_spec().contains(e) && q == sibling_with_ext(idealp@, e) by {
            if !fs1.has_file(q) {
            } else {
                let w = fs1.file_index(q);
                fs1.lemma_file_index(w);
                if w < fs0.files.len() {
                    fs0.lemma_file_index(w);
                } else {
                    assert(q == idealp@);
                }
            }
        }
        // Copies carry fresh inodes: only the link itself reuses one.
        assert forall|q: Seq<Seq<char>>| #[trigger] fs2.has_file(q) && !fs0.has_file(q) && q
            != idealp@ implies fs2.file_at(q).inode >= fs0.next_inode by {
            if fs1.has_file(q) {
                let w = fs1.file_index(q);
                fs1.lemma_file_index(w);
                if w < fs0.files.len() {
                    assert(fs0.files[w].path == q);
                    fs0.lemma_file_index(w);
                } else {
                    assert(q == idealp@);
                }
            } else {
                assert(fs2.file_at(q).inode >= fs1.next_inode);
            }
        }
        // Sidecar results, stated against the pre-call state.
        assert forall|e: Seq<char>|
            sidecar_exts_spec().contains(e) && fs0.has_file(sibling_with_ext(sp, e)) implies
            fs2.has_file(#[trigger] sibling_with_ext(idealp@, e)) && fs2.file_at(
            sibling_with_ext(idealp@, e),
        ).content == fs0.file_at(sibling_with_ext(sp, e)).content by {
            assert(fs1.has_file(sibling_with_ext(file@, e)));
            assert(fs1.file_at(sibling_with_ext(file@, e)) == fs0.file_at(
                sibling_with_ext(sp, e),
            )) by {
                assert(is_prefix_of(ctx.src@, sibling_with_ext(file@, e))) by {
                    assert(sibling_with_ext(file@, e).subrange(0, ctx.src@.len() as int)
                        =~= file@.subrange(0, ctx.src@.len() as int));
                    assert(file@.subrange(0, ctx.src@.len() as int) =~= ctx.src@);
                }
                assert(!is_prefix_of(ctx.target@, sibling_with_ext(file@, e))) by {
                    if is_prefix_of(ctx.target@, sibling_with_ext(file@, e)) {
                        if ctx.target@.len() <= ctx.src@.len() {
                            lemma_prefix_of_prefix(
                                ctx.target@,
                                ctx.src@,
                                sibling_with_ext(file@, e),
                            );
                        } else {
                            lemma_prefix_of_prefix(
                                ctx.src@,
                                ctx.target@,
                                sibling_with_ext(file@, e),
                            );
                        }
                    }
                }
            }
        }
        assert(ops.deep_view().subrange(0, ops0.len() as int) =~= ops0);
    }
    Ok(FileReport { outcome: Outcome::Created, stale_deleted, inode_mismatch: false })
}


impl Ctx {
    /// The child context for one visited file: same rule, options and mode,
    /// its own relative path.
    pub fn with_relative(&self, rel: FsPath) -> (r: Ctx)
        ensures
            r.basic.ignore.deep_view() == self.basic.ignore.deep_view(),
            r.basic.media_ext.deep_view() == self.basic.media_ext.deep_view(),
            r.basic.link_ext.deep_view() == self.basic.link_ext.deep_view(),
            r.basic.copy_ext.deep_view() == self.basic.copy_ext.deep_view(),
            r.basic.uid == self.basic.uid,
            r.basic.gid == self.basic.gid,
            r.src@ == self.src@,
            r.target@ == self.target@,
            r.relative@ == rel@,
            r.dry_run == self.dry_run,
    {
        Ctx {
            basic: self.basic.duplicate(),
            src: self.src.duplicate(),
            target: self.target.duplicate(),
            relative: rel,
            dry_run: self.dry_run,
        }
    }
}

/// File index `j` would be visited by a walk of this context's subtree: it
/// sits below the visited directory and no component on the way down is an
/// ignored name.
pub open spec fn visible_file(fs: FsView, ctx: Ctx, j: int) -> bool {
    let base = ctx.src@ + ctx.relative@;
    let p = fs.files[j].path;
    &&& 0 <= j < fs.files.len()
    &&& is_prefix_of(base, p)
    &&& p.len() > base.len()
    &&& !component_ignored(
        ctx.basic.ignore.deep_view(),
        p.subrange(base.len() as int, p.len() as int),
    )
}

/// File index `j` is a reconciliation subject: visited, and its extension
/// is in the media set.
pub open spec fn eligible_file(fs: FsView, ctx: Ctx, j: int) -> bool {
    visible_file(fs, ctx, j) && is_media_name(
        fs.files[j].path.last(),
        ctx.basic.media_ext.deep_view(),
    )
}

/// `rel` names a reconciliation subject of this context: a media file below
/// the visited directory that no ignore rule hides.
pub open spec fn subject_rel(fs: FsView, ctx: Ctx, rel: Seq<Seq<char>>) -> bool {
    &&& rel.len() > ctx.relative@.len()
    &&& is_prefix_of(ctx.relative@, rel)
    &&& fs.has_file(ctx.src@ + rel)
    &&& !component_ignored(
        ctx.basic.ignore.deep_view(),
        rel.subrange(ctx.relative@.len() as int, rel.len() as int),
    )
    &&& is_media_name(rel.last(), ctx.basic.media_ext.deep_view())
}

/// What stood (or was put) in the way of creating `rel`'s link: a file on
/// the ideal target's parent chain, or a directory where a sidecar sibling
/// sits or would land.
pub open spec fn pass_obstruction(fsv: FsView, ctx: Ctx, rel: Seq<Seq<char>>, e: FsError) -> bool {
    let ideal = ideal_target_spec(ctx.target@, rel);
    let sp = ctx.src@ + rel;
    ||| (e == FsError::CreateDirOnFile && (exists|kk: int|
        1 <= kk <= ideal.drop_last().len() && fsv.has_file(
            #[trigger] ideal.drop_last().subrange(0, kk),
        )))
    ||| ((e == FsError::CopySourceNotFile || e == FsError::CopyTargetIsDir) && (exists|
        x: Seq<char>,
    |
        sidecar_exts_spec().contains(x) && (fsv.is_dir(#[trigger] sibling_with_ext(sp, x)) || (
        fsv.has_file(sibling_with_ext(sp, x)) && fsv.is_dir(sibling_with_ext(ideal, x))))))
}

/// One full reconciliation visit of the directory this context points at:
/// every file below it that no ignore rule hides is run through the
/// per-file procedure, in tree order.
#[verifier::loop_isolation(false)]
#[verifier::rlimit(100)]
fn run_on_dir(
    fs: &mut Fs,
    cache: &mut LinkCache,
    searcher: &mut PathSearcher,
    ctx: &Ctx,
    ops: &mut Vec<Op>,
) -> (r: Result<Vec<FileReport>, FsError>)
    requires
        old(fs)@.wf(),
        old(cache)@.wf(),
        old(searcher)@.wf(),
        old(searcher)@.ignore == ctx.basic.ignore.deep_view(),
        !is_prefix_of(ctx.src@, ctx.target@),
        !is_prefix_of(ctx.target@, ctx.src@),
        old(cache)@.next_id as int + old(fs)@.files.len() as int <= i32::MAX as int,
        old(fs)@.next_inode as int + 5 * old(fs)@.files.len() as int <= u64::MAX as int,
    ensures
        final(fs)@.wf(),
        final(cache)@.wf(),
        final(searcher)@.wf(),
        final(searcher)@.ignore == old(searcher)@.ignore,
        fs_grows(old(fs)@, final(fs)@),
        untouched_outside(old(fs)@, final(fs)@, ctx.target@),
        final(ops).deep_view().subrange(0, old(ops).deep_view().len() as int) == old(
            ops,
        ).deep_view(),
        old(ops).deep_view().len() <= final(ops).deep_view().len(),
        forall|s: Seq<Seq<char>>|
            #[trigger] cache_ok(old(fs)@, old(cache)@, s) ==> cache_ok(
                final(fs)@,
                final(cache)@,
                s,
            ),
        old(cache)@.next_id <= final(cache)@.next_id,
        final(cache)@.next_id as int <= old(cache)@.next_id as int + old(fs)@.files.len() as int,
        old(fs)@.next_inode <= final(fs)@.next_inode,
        final(fs)@.next_inode as int <= old(fs)@.next_inode as int + 5 * old(
            fs,
        )@.files.len() as int,
        forall|q: Seq<Seq<char>>|
            #[trigger] final(fs)@.is_dir(q) && !old(fs)@.is_dir(q) ==> exists|
                rel: Seq<Seq<char>>,
            |
                #[trigger] subject_rel(old(fs)@, *ctx, rel) && is_prefix_of(
                    q,
                    ideal_target_spec(ctx.target@, rel).drop_last(),
                ),
        forall|s: Seq<Seq<char>>|
            #[trigger] final(cache)@.has_src(s) && !old(cache)@.has_src(s) ==> exists|
                rel: Seq<Seq<char>>,
            | #[trigger] subject_rel(old(fs)@, *ctx, rel) && s == ctx.src@ + rel,
        forall|s: Seq<Seq<char>>|
            old(cache)@.has_src(s) && !(#[trigger] final(cache)@.has_src(s)) ==> exists|
                rel: Seq<Seq<char>>,
            | #[trigger] subject_rel(old(fs)@, *ctx, rel) && s == ctx.src@ + rel,
        ctx.dry_run ==> r is Ok,
        (forall|j: int|
            #[trigger] eligible_file(old(fs)@, *ctx, j) ==> cache_ok(
                old(fs)@,
                old(cache)@,
                old(fs)@.files[j].path,
            )) ==> r is Ok,
        match r {
            Ok(reports) => {
                &&& ((forall|j: int|
                    #[trigger] eligible_file(old(fs)@, *ctx, j) ==> cache_ok(
                        old(fs)@,
                        old(cache)@,
                        old(fs)@.files[j].path,
                    )) ==> {
                    &&& final(fs)@ == old(fs)@
                    &&& final(cache)@ == old(cache)@
                    &&& final(searcher)@ == old(searcher)@
                    &&& final(ops).deep_view() == old(ops).deep_view()
                })
                &&& (!ctx.dry_run ==> forall|j: int|
                    #[trigger] eligible_file(old(fs)@, *ctx, j) ==> cache_ok(
                        final(fs)@,
                        final(cache)@,
                        old(fs)@.files[j].path,
                    ))
                &&& forall|q: Seq<Seq<char>>|
                    #[trigger] final(fs)@.has_file(q) && !old(fs)@.has_file(q)
                        ==> exists|rel: Seq<Seq<char>>|
                        #[trigger] subject_rel(old(fs)@, *ctx, rel) && ((q == ideal_target_spec(
                            ctx.target@,
                            rel,
                        ) && final(fs)@.file_at(q).inode == old(fs)@.file_at(
                            ctx.src@ + rel,
                        ).inode) || (exists|e: Seq<char>|
                            sidecar_exts_spec().contains(e) && q == sibling_with_ext(
                                ideal_target_spec(ctx.target@, rel),
                                e,
                            )) && final(fs)@.file_at(q).inode >= old(fs)@.next_inode)
            },
            Err(e) => {
                &&& (e == FsError::CreateDirOnFile || e == FsError::CopySourceNotFile || e
                    == FsError::CopyTargetIsDir)
                &&& !ctx.dry_run
                &&& exists|rel: Seq<Seq<char>>|
                    #[trigger] subject_rel(old(fs)@, *ctx, rel) && pass_obstruction(
                        final(fs)@,
                        *ctx,
                        rel,
                        e,
                    )
            },
        },
{
    let ghost fs0 = old(fs)@;
    let ghost cache0 = old(cache)@;
    let ghost searcher0 = old(searcher)@;
    let ghost ops0 = old(ops).deep_view();
    let base = ctx.src.concat(&ctx.relative);
    // First: gather the relative paths of every file the walk would visit,
    // against the present state of the tree.
    let mut candidates: Vec<FsPath> = Vec::new();
    let nf: usize = fs.files.len();
    let mut j: usize = 0;
    while j < nf
        invariant
            fs@ == fs0,
            fs0.wf(),
            base@ == ctx.src@ + ctx.relative@,
            nf == fs.files.len(),
            j <= nf,
            forall|m: int|
                0 <= m < candidates.deep_view().len() ==> {
                    let rel = #[trigger] candidates.deep_view()[m];
                    &&& rel.len() > ctx.relative@.len()
                    &&& is_prefix_of(ctx.relative@, rel)
                    &&& fs0.has_file(ctx.src@ + rel)
                    &&& !component_ignored(
                        ctx.basic.ignore.deep_view(),
                        rel.subrange(ctx.relative@.len() as int, rel.len() as int),
                    )
                },
            candidates.deep_view().len() <= j,
            forall|jj: int|
                0 <= jj < j && visible_file(fs0, *ctx, jj) ==> exists|m: int|
                    0 <= m < candidates.deep_view().len() && ctx.src@
                        + #[trigger] candidates.deep_view()[m] == fs0.files[jj].path,
        decreases nf - j,
    {
        proof {
            assert(fs0.files[j as int] == fs.files@[j as int].deep_view());
        }
        if fs.files[j].path.starts_with(&base) && fs.files[j].path.len() > base.len() {
            let below = fs.files[j].path.strip_prefix(&base);
            if !any_component_ignored(&ctx.basic.ignore, &below) {
                proof {
                    assert(is_prefix_of(ctx.src@, fs0.files[j as int].path)) by {
                        assert(fs0.files[j as int].path.subrange(0, ctx.src@.len() as int)
                            =~= base@.subrange(0, ctx.src@.len() as int));
                        assert(base@.subrange(0, ctx.src@.len() as int) =~= ctx.src@);
                    }
                }
                let rel = fs.files[j].path.strip_prefix(&ctx.src);
                proof {
                    let p = fs0.files[j as int].path;
                    assert(ctx.src@ + rel@ =~= p);
                    assert(is_prefix_of(ctx.relative@, rel@)) by {
                        assert(rel@.subrange(0, ctx.relative@.len() as int) =~= base@.subrange(
                            ctx.src@.len() as int,
                            base@.len() as int,
                        ));
                        assert(base@.subrange(ctx.src@.len() as int, base@.len() as int)
                            =~= ctx.relative@);
                    }
                    assert(rel@.subrange(ctx.relative@.len() as int, rel@.len() as int)
                        =~= below@);
                    fs0.lemma_file_index(j as int);
                }
                let ghost pre_cands = candidates.deep_view();
                crate::util::push_deep(&mut candidates, rel);
                proof {
                    assert forall|jj: int| 0 <= jj < j + 1 && visible_file(fs0, *ctx, jj)
                        implies exists|m: int|
                        0 <= m < candidates.deep_view().len() && ctx.src@
                            + #[trigger] candidates.deep_view()[m] == fs0.files[jj].path by {
                        if jj < j {
                            let m = choose|m: int|
                                0 <= m < pre_cands.len() && ctx.src@ + pre_cands[m] == fs0.files[
                                    jj].path;
                            assert(candidates.deep_view()[m] == pre_cands[m]);
                        } else {
                            assert(ctx.src@ + candidates.deep_view().last() == fs0.files[
                                jj].path);
                        }
                    }
                }
            } else {
                proof {
                    assert forall|jj: int| 0 <= jj < j + 1 && visible_file(fs0, *ctx, jj)
                        implies exists|m: int|
                        0 <= m < candidates.deep_view().len() && ctx.src@
                            + #[trigger] candidates.deep_view()[m] == fs0.files[jj].path by {
                        if jj == j {
                            let p = fs0.files[j as int].path;
                            assert(p.subrange(base@.len() as int, p.len() as int) =~= below@);
                        }
                    }
                }
            }
        } else {
            proof {
                assert forall|jj: int| 0 <= jj < j + 1 && visible_file(fs0, *ctx, jj) implies
                    exists|m: int|
                    0 <= m < candidates.deep_view().len() && ctx.src@
                        + #[trigger] candidates.deep_view()[m] == fs0.files[jj].path by {}
            }
        }
        j = j + 1;
    }
    // Then: run the per-file procedure on each visited file.
    let ghost cands = candidates.deep_view();
    let mut reports: Vec<FileReport> = Vec::new();
    let nc: usize = candidates.len();
    proof {
        assert(nc <= nf);
    }
    let mut k: usize = 0;
    while k < nc
        invariant
            fs@.wf(),
            cache@.wf(),
            searcher@.wf(),
            searcher@.ignore == ctx.basic.ignore.deep_view(),
            !is_prefix_of(ctx.src@, ctx.target@),
            !is_prefix_of(ctx.target@, ctx.src@),
            nc == candidates.len(),
            nc <= nf,
            nf == fs0.files.len(),
            k <= nc,
            cands == candidates.deep_view(),
            fs0.wf(),
            cache0.wf(),
            cache0.next_id as int + nf as int <= i32::MAX as int,
            fs0.next_inode as int + 5 * (nf as int) <= u64::MAX as int,
            cache0.next_id <= cache@.next_id,
            cache@.next_id as int <= cache0.next_id as int + k as int,
            fs0.next_inode <= fs@.next_inode,
            fs@.next_inode as int <= fs0.next_inode as int + 5 * (k as int),
            fs_grows(fs0, fs@),
            untouched_outside(fs0, fs@, ctx.target@),
            ops.deep_view().subrange(0, ops0.len() as int) == ops0,
            ops0.len() <= ops.deep_view().len(),
            forall|s: Seq<Seq<char>>|
                #[trigger] cache_ok(fs0, cache0, s) ==> cache_ok(fs@, cache@, s),
            forall|m: int|
                0 <= m < cands.len() ==> {
                    let rel = #[trigger] cands[m];
                    &&& rel.len() > ctx.relative@.len()
                    &&& is_prefix_of(ctx.relative@, rel)
                    &&& fs0.has_file(ctx.src@ + rel)
                    &&& !component_ignored(
                        ctx.basic.ignore.deep_view(),
                        rel.subrange(ctx.relative@.len() as int, rel.len() as int),
                    )
                },
            forall|jj: int|
                visible_file(fs0, *ctx, jj) ==> exists|m: int|
                    0 <= m < cands.len() && ctx.src@ + #[trigger] cands[m] == fs0.files[jj].path,
            ((forall|j2: int|
                #[trigger] eligible_file(fs0, *ctx, j2) ==> cache_ok(
                    fs0,
                    cache0,
                    fs0.files[j2].path,
                )) ==> {
                &&& fs@ == fs0
                &&& cache@ == cache0
                &&& searcher@ == searcher0
                &&& ops.deep_view() == ops0
            }),
            (!ctx.dry_run ==> forall|m: int|
                0 <= m < k && is_media_name(
                    (#[trigger] cands[m]).last(),
                    ctx.basic.media_ext.deep_view(),
                ) ==> cache_ok(fs@, cache@, ctx.src@ + cands[m])),
            forall|q: Seq<Seq<char>>|
                #[trigger] fs@.has_file(q) && !fs0.has_file(q) ==> exists|m: int|
                    {
                        &&& 0 <= m < k
                        &&& is_media_name(
                            (#[trigger] cands[m]).last(),
                            ctx.basic.media_ext.deep_view(),
                        )
                        &&& ((q == ideal_target_spec(ctx.target@, cands[m]) && fs@.file_at(
                            q,
                        ).inode == fs0.file_at(ctx.src@ + cands[m]).inode) || (exists|
                            e: Seq<char>,
                        |
                            sidecar_exts_spec().contains(e) && q == sibling_with_ext(
                                ideal_target_spec(ctx.target@, cands[m]),
                                e,
                            )) && fs@.file_at(q).inode >= fs0.next_inode)
                    },
            forall|q: Seq<Seq<char>>|
                #[trigger] fs@.is_dir(q) && !fs0.is_dir(q) ==> exists|m: int|
                    0 <= m < k && is_media_name(
                        (#[trigger] cands[m]).last(),
                        ctx.basic.media_ext.deep_view(),
                    ) && is_prefix_of(
                        q,
                        ideal_target_spec(ctx.target@, cands[m]).drop_last(),
                    ),
            forall|s: Seq<Seq<char>>|
                #[trigger] cache@.has_src(s) && !cache0.has_src(s) ==> exists|m: int|
                    0 <= m < k && is_media_name(
                        (#[trigger] cands[m]).last(),
                        ctx.basic.media_ext.deep_view(),
                    ) && s == ctx.src@ + cands[m],
            forall|s: Seq<Seq<char>>|
                cache0.has_src(s) && !(#[trigger] cache@.has_src(s)) ==> exists|m: int|
                    0 <= m < k && is_media_name(
                        (#[trigger] cands[m]).last(),
                        ctx.basic.media_ext.deep_view(),
                    ) && s == ctx.src@ + cands[m],
        decreases nc - k,
    {
        proof {
            assert(cands[k as int] == candidates@[k as int].deep_view());
        }
        let cctx = ctx.with_relative(candidates[k].duplicate());
        let ghost pre_fs = fs@;
        let ghost pre_cache = cache@;
        let ghost pre_searcher = searcher@;
        let ghost pre_ops = ops.deep_view();
        proof {
            assert(src_path_spec(cctx) == ctx.src@ + cands[k as int]);
            assert(fs0.has_file(src_path_spec(cctx)));
            assert(fs@.has_file(src_path_spec(cctx)));
            assert(cctx.relative@.len() >= 1);
            assert(cache@.next_id < i32::MAX);
            assert(fs@.next_inode as int + 5 <= u64::MAX as int);
        }
        let step = run_on_file(fs, cache, searcher, &cctx, ops);
        match step {
            Ok(rep) => {
                reports.push(rep);
            },
            Err(e) => {
                proof {
                    lemma_fs_grows_trans(fs0, pre_fs, fs@);
                    lemma_untouched_trans(fs0, pre_fs, fs@, ctx.target@);
                    assert forall|s: Seq<Seq<char>>| #[trigger] cache_ok(fs0, cache0, s)
                        implies cache_ok(fs@, cache@, s) by {
                        assert(cache_ok(pre_fs, pre_cache, s));
                    }
                    assert(ops.deep_view().subrange(0, ops0.len() as int) =~= ops0);
                    // A failure needs real work: not in a rehearsal, and not
                    // when every subject was already vouched for.
                    assert(!ctx.dry_run);
                    let rel = cands[k as int];
                    let sp = src_path_spec(cctx);
                    assert(sp == ctx.src@ + rel);
                    assert(sp.last() == rel.last()) by {
                        assert((ctx.src@ + rel).last() == rel.last());
                    }
                    // The failing candidate is a subject and the obstruction
                    // survives into the final state.
                    assert(subject_rel(fs0, *ctx, rel));
                    assert(pass_obstruction(fs@, *ctx, rel, e)) by {
                        let ideal = ideal_target_spec(ctx.target@, rel);
                        assert(ideal == ideal_target_spec(cctx.target@, cctx.relative@));
                        if e == FsError::CreateDirOnFile {
                            let kk = choose|kk: int|
                                1 <= kk <= ideal.drop_last().len() && pre_fs.has_file(
                                    ideal.drop_last().subrange(0, kk),
                                );
                            assert(fs@.has_file(ideal.drop_last().subrange(0, kk)));
                        } else {
                            let x = choose|x: Seq<char>|
                                sidecar_exts_spec().contains(x) && (pre_fs.is_dir(
                                    sibling_with_ext(sp, x),
                                ) || (pre_fs.has_file(sibling_with_ext(sp, x))
                                    && pre_fs.is_dir(sibling_with_ext(ideal, x))));
                            if pre_fs.is_dir(sibling_with_ext(sp, x)) {
                                assert(fs@.is_dir(sibling_with_ext(sp, x)));
                            } else {
                                assert(fs@.has_file(sibling_with_ext(sp, x)));
                                assert(fs@.is_dir(sibling_with_ext(ideal, x)));
                            }
                        }
                    }
                    // Directory and cache provenance still hold at this exit.
                    assert forall|q: Seq<Seq<char>>| #[trigger] fs@.is_dir(q) && !fs0.is_dir(
                        q,
                    ) implies exists|rel2: Seq<Seq<char>>|
                        #[trigger] subject_rel(fs0, *ctx, rel2) && is_prefix_of(
                            q,
                            ideal_target_spec(ctx.target@, rel2).drop_last(),
                        ) by {
                        if pre_fs.is_dir(q) {
                            let m = choose|m: int|
                                0 <= m < k && is_media_name(
                                    cands[m].last(),
                                    ctx.basic.media_ext.deep_view(),
                                ) && is_prefix_of(
                                    q,
                                    ideal_target_spec(ctx.target@, cands[m]).drop_last(),
                                );
                            assert(subject_rel(fs0, *ctx, cands[m]));
                        } else {
                            assert(is_prefix_of(
                                q,
                                ideal_target_spec(cctx.target@, cctx.relative@).drop_last(),
                            ));
                            assert(ideal_target_spec(cctx.target@, cctx.relative@)
                                == ideal_target_spec(ctx.target@, rel));
                        }
                    }
                    assert forall|s: Seq<Seq<char>>| #[trigger] cache@.has_src(s)
                        && !cache0.has_src(s) implies exists|rel2: Seq<Seq<char>>|
                        #[trigger] subject_rel(fs0, *ctx, rel2) && s == ctx.src@ + rel2 by {
                        if pre_cache.has_src(s) {
                            let m = choose|m: int|
                                0 <= m < k && is_media_name(
                                    cands[m].last(),
                                    ctx.basic.media_ext.deep_view(),
                                ) && s == ctx.src@ + cands[m];
                            assert(subject_rel(fs0, *ctx, cands[m]));
                        } else {
                            assert(s == src_path_spec(cctx));
                        }
                    }
                    assert forall|s: Seq<Seq<char>>| cache0.has_src(s) && !(
                    #[trigger] cache@.has_src(s)) implies exists|rel2: Seq<Seq<char>>|
                        #[trigger] subject_rel(fs0, *ctx, rel2) && s == ctx.src@ + rel2 by {
                        if !pre_cache.has_src(s) {
                            let m = choose|m: int|
                                0 <= m < k && is_media_name(
                                    cands[m].last(),
                                    ctx.basic.media_ext.deep_view(),
                                ) && s == ctx.src@ + cands[m];
                            assert(subject_rel(fs0, *ctx, cands[m]));
                        } else {
                            assert(s == src_path_spec(cctx));
                        }
                    }
                    if forall|j2: int|
                        #[trigger] eligible_file(fs0, *ctx, j2) ==> cache_ok(
                            fs0,
                            cache0,
                            fs0.files[j2].path,
                        ) {
                        assert(pre_fs == fs0 && pre_cache == cache0);
                        assert(sp.last() == rel.last()) by {
                            assert((ctx.src@ + rel).last() == rel.last());
                        }
                        let jw = fs0.file_index(ctx.src@ + rel);
                        assert(0 <= jw < fs0.files.len() && fs0.files[jw].path == ctx.src@
                            + rel);
                        assert(visible_file(fs0, *ctx, jw)) by {
                            let pth = fs0.files[jw].path;
                            assert(is_prefix_of(ctx.src@ + ctx.relative@, pth)) by {
                                assert(pth.subrange(0, (ctx.src@ + ctx.relative@).len() as int)
                                    =~= ctx.src@ + ctx.relative@);
                            }
                            assert(pth.subrange(
                                (ctx.src@ + ctx.relative@).len() as int,
                                pth.len() as int,
                            ) =~= rel.subrange(ctx.relative@.len() as int, rel.len() as int));
                        }
                        assert(eligible_file(fs0, *ctx, jw));
                        assert(cache_ok(fs0, cache0, sp));
                        assert(false);
                    }
                }
                return Err(e);
            },
        }
        proof {
            let rep = step->Ok_0;
            let post_fs = fs@;
            let post_cache = cache@;
            let sp = src_path_spec(cctx);
            let rel = cands[k as int];
            lemma_fs_grows_trans(fs0, pre_fs, post_fs);
            lemma_untouched_trans(fs0, pre_fs, post_fs, ctx.target@);
            assert forall|s: Seq<Seq<char>>| #[trigger] cache_ok(fs0, cache0, s) implies
                cache_ok(post_fs, post_cache, s) by {
                assert(cache_ok(pre_fs, pre_cache, s));
            }
            assert(ops.deep_view().subrange(0, ops0.len() as int) =~= ops0);
            // Media filter agreement between the candidate and its file.
            assert(sp.last() == rel.last()) by {
                assert((ctx.src@ + rel).last() == rel.last());
            }
            // Unchanged-state invariant under the all-converged hypothesis.
            if forall|j2: int|
                #[trigger] eligible_file(fs0, *ctx, j2) ==> cache_ok(
                    fs0,
                    cache0,
                    fs0.files[j2].path,
                ) {
                assert(pre_fs == fs0 && pre_cache == cache0 && pre_searcher == searcher0
                    && pre_ops == ops0);
                if is_media_name(rel.last(), ctx.basic.media_ext.deep_view()) {
                    let jw = fs0.file_index(ctx.src@ + rel);
                    assert(0 <= jw < fs0.files.len() && fs0.files[jw].path == ctx.src@ + rel);
                    assert(visible_file(fs0, *ctx, jw)) by {
                        let p = fs0.files[jw].path;
                        assert(is_prefix_of(ctx.src@ + ctx.relative@, p)) by {
                            assert(p.subrange(0, (ctx.src@ + ctx.relative@).len() as int)
                                =~= ctx.src@ + ctx.relative@);
                        }
                        assert(p.subrange(
                            (ctx.src@ + ctx.relative@).len() as int,
                            p.len() as int,
                        ) =~= rel.subrange(ctx.relative@.len() as int, rel.len() as int));
                    }
                    assert(eligible_file(fs0, *ctx, jw));
                    assert(cache_ok(fs0, cache0, sp));
                    assert(rep.outcome == Outcome::CacheValid);
                } else {
                    assert(rep.outcome == Outcome::NotMedia);
                }
                assert(fs@ == fs0 && cache@ == cache0 && searcher@ == searcher0
                    && ops.deep_view() == ops0);
            }
            // Convergence of everything processed so far.
            if !ctx.dry_run {
                assert forall|m: int|
                    0 <= m < k + 1 && is_media_name(
                        (#[trigger] cands[m]).last(),
                        ctx.basic.media_ext.deep_view(),
                    ) implies cache_ok(fs@, cache@, ctx.src@ + cands[m]) by {
                    if m < k {
                        assert(cache_ok(pre_fs, pre_cache, ctx.src@ + cands[m]));
                    } else {
                        assert((ctx.src@ + cands[m]).last() == cands[m].last());
                        assert(rep.outcome != Outcome::Created || !cctx.dry_run);
                    }
                }
            }
            // New artifacts stem from processed media candidates, links
            // sharing their source's inode and copies carrying fresh ones.
            assert forall|q: Seq<Seq<char>>| #[trigger] fs@.has_file(q) && !fs0.has_file(q)
                implies exists|m: int|
                {
                    &&& 0 <= m < k + 1
                    &&& is_media_name(
                        (#[trigger] cands[m]).last(),
                        ctx.basic.media_ext.deep_view(),
                    )
                    &&& ((q == ideal_target_spec(ctx.target@, cands[m]) && fs@.file_at(q).inode
                        == fs0.file_at(ctx.src@ + cands[m]).inode) || (exists|e: Seq<char>|
                        sidecar_exts_spec().contains(e) && q == sibling_with_ext(
                            ideal_target_spec(ctx.target@, cands[m]),
                            e,
                        )) && fs@.file_at(q).inode >= fs0.next_inode)
                } by {
                if pre_fs.has_file(q) {
                    let m = choose|m: int|
                        {
                            &&& 0 <= m < k
                            &&& is_media_name(
                                cands[m].last(),
                                ctx.basic.media_ext.deep_view(),
                            )
                            &&& ((q == ideal_target_spec(ctx.target@, cands[m])
                                && pre_fs.file_at(q).inode == fs0.file_at(
                                ctx.src@ + cands[m],
                            ).inode) || (exists|e: Seq<char>|
                                sidecar_exts_spec().contains(e) && q == sibling_with_ext(
                                    ideal_target_spec(ctx.target@, cands[m]),
                                    e,
                                )) && pre_fs.file_at(q).inode >= fs0.next_inode)
                        };
                    assert(0 <= m < k + 1);
                    assert(fs@.file_at(q).inode == pre_fs.file_at(q).inode);
                } else {
                    assert(rep.outcome == Outcome::Created && !cctx.dry_run);
                    assert(ideal_target_spec(cctx.target@, cctx.relative@)
                        == ideal_target_spec(ctx.target@, rel));
                    assert(is_media_name(rel.last(), ctx.basic.media_ext.deep_view()));
                    if q == ideal_target_spec(ctx.target@, rel) {
                        assert(fs@.file_at(q).inode == pre_fs.file_at(sp).inode);
                        assert(pre_fs.file_at(sp).inode == fs0.file_at(sp).inode);
                    } else {
                        assert(fs@.file_at(q).inode >= pre_fs.next_inode);
                    }
                }
            }
            // Created directories stand under processed candidates' ideal
            // parents.
            assert forall|q: Seq<Seq<char>>| #[trigger] fs@.is_dir(q) && !fs0.is_dir(q)
                implies exists|m: int|
                0 <= m < k + 1 && is_media_name(
                    (#[trigger] cands[m]).last(),
                    ctx.basic.media_ext.deep_view(),
                ) && is_prefix_of(q, ideal_target_spec(ctx.target@, cands[m]).drop_last()) by {
                if pre_fs.is_dir(q) {
                    let m = choose|m: int|
                        0 <= m < k && is_media_name(
                            cands[m].last(),
                            ctx.basic.media_ext.deep_view(),
                        ) && is_prefix_of(
                            q,
                            ideal_target_spec(ctx.target@, cands[m]).drop_last(),
                        );
                } else {
                    assert(is_prefix_of(
                        q,
                        ideal_target_spec(cctx.target@, cctx.relative@).drop_last(),
                    ));
                    assert(ideal_target_spec(cctx.target@, cctx.relative@)
                        == ideal_target_spec(ctx.target@, rel));
                    assert(is_media_name(rel.last(), ctx.basic.media_ext.deep_view())) by {
                        if rep.outcome == Outcome::NotMedia {
                            assert(fs@ == pre_fs);
                        }
                    }
                }
            }
            // Cache records come and go only for processed candidates.
            assert forall|s: Seq<Seq<char>>| #[trigger] cache@.has_src(s) && !cache0.has_src(
                s,
            ) implies exists|m: int|
                0 <= m < k + 1 && is_media_name(
                    (#[trigger] cands[m]).last(),
                    ctx.basic.media_ext.deep_view(),
                ) && s == ctx.src@ + cands[m] by {
                if pre_cache.has_src(s) {
                    let m = choose|m: int|
                        0 <= m < k && is_media_name(
                            cands[m].last(),
                            ctx.basic.media_ext.deep_view(),
                        ) && s == ctx.src@ + cands[m];
                } else {
                    assert(s == src_path_spec(cctx));
                    assert(s == ctx.src@ + rel);
                    assert(is_media_name(rel.last(), ctx.basic.media_ext.deep_view())) by {
                        if rep.outcome == Outcome::NotMedia {
                            assert(cache@ == pre_cache);
                        }
                    }
                }
            }
            assert forall|s: Seq<Seq<char>>| cache0.has_src(s) && !(#[trigger] cache@.has_src(
                s,
            )) implies exists|m: int|
                0 <= m < k + 1 && is_media_name(
                    (#[trigger] cands[m]).last(),
                    ctx.basic.media_ext.deep_view(),
                ) && s == ctx.src@ + cands[m] by {
                if !pre_cache.has_src(s) {
                    let m = choose|m: int|
                        0 <= m < k && is_media_name(
                            cands[m].last(),
                            ctx.basic.media_ext.deep_view(),
                        ) && s == ctx.src@ + cands[m];
                } else {
                    assert(s == src_path_spec(cctx));
                    assert(s == ctx.src@ + rel);
                    assert(is_media_name(rel.last(), ctx.basic.media_ext.deep_view())) by {
                        if rep.outcome == Outcome::NotMedia {
                            assert(cache@ == pre_cache);
                        }
                    }
                }
            }
        }
        k = k + 1;
    }
    proof {
        // Every eligible file was one of the media candidates.
        if !ctx.dry_run {
            assert forall|j2: int| #[trigger] eligible_file(fs0, *ctx, j2) implies cache_ok(
                fs@,
                cache@,
                fs0.files[j2].path,
            ) by {
                let m = choose|m: int|
                    0 <= m < cands.len() && ctx.src@ + cands[m] == fs0.files[j2].path;
                assert((ctx.src@ + cands[m]).last() == cands[m].last());
            }
        }
        assert forall|q: Seq<Seq<char>>| #[trigger] fs@.has_file(q) && !fs0.has_file(q) implies
            exists|rel: Seq<Seq<char>>|
            #[trigger] subject_rel(fs0, *ctx, rel) && ((q == ideal_target_spec(ctx.target@, rel)
                && fs@.file_at(q).inode == fs0.file_at(ctx.src@ + rel).inode) || (exists|
                e: Seq<char>,
            |
                sidecar_exts_spec().contains(e) && q == sibling_with_ext(
                    ideal_target_spec(ctx.target@, rel),
                    e,
                )) && fs@.file_at(q).inode >= fs0.next_inode) by {
            let m = choose|m: int|
                {
                    &&& 0 <= m < cands.len()
                    &&& is_media_name(cands[m].last(), ctx.basic.media_ext.deep_view())
                    &&& ((q == ideal_target_spec(ctx.target@, cands[m]) && fs@.file_at(q).inode
                        == fs0.file_at(ctx.src@ + cands[m]).inode) || (exists|e: Seq<char>|
                        sidecar_exts_spec().contains(e) && q == sibling_with_ext(
                            ideal_target_spec(ctx.target@, cands[m]),
                            e,
                        )) && fs@.file_at(q).inode >= fs0.next_inode)
                };
            assert(subject_rel(fs0, *ctx, cands[m]));
        }
        assert forall|q: Seq<Seq<char>>| #[trigger] fs@.is_dir(q) && !fs0.is_dir(q) implies
            exists|rel: Seq<Seq<char>>|
            #[trigger] subject_rel(fs0, *ctx, rel) && is_prefix_of(
                q,
                ideal_target_spec(ctx.target@, rel).drop_last(),
            ) by {
            let m = choose|m: int|
                0 <= m < nc && is_media_name(cands[m].last(), ctx.basic.media_ext.deep_view())
                    && is_prefix_of(q, ideal_target_spec(ctx.target@, cands[m]).drop_last());
            assert(subject_rel(fs0, *ctx, cands[m]));
        }
        assert forall|s: Seq<Seq<char>>| #[trigger] cache@.has_src(s) && !cache0.has_src(s)
            implies exists|rel: Seq<Seq<char>>|
            #[trigger] subject_rel(fs0, *ctx, rel) && s == ctx.src@ + rel by {
            let m = choose|m: int|
                0 <= m < nc && is_media_name(cands[m].last(), ctx.basic.media_ext.deep_view())
                    && s == ctx.src@ + cands[m];
            assert(subject_rel(fs0, *ctx, cands[m]));
        }
        assert forall|s: Seq<Seq<char>>| cache0.has_src(s) && !(#[trigger] cache@.has_src(s))
            implies exists|rel: Seq<Seq<char>>|
            #[trigger] subject_rel(fs0, *ctx, rel) && s == ctx.src@ + rel by {
            let m = choose|m: int|
                0 <= m < nc && is_media_name(cands[m].last(), ctx.basic.media_ext.deep_view())
                    && s == ctx.src@ + cands[m];
            assert(subject_rel(fs0, *ctx, cands[m]));
        }
    }
    Ok(reports)
}

/// Reconcile the path this context points at: descend into a directory, or
/// run the per-file procedure on a single file. The rule's source root must
/// be a directory.
pub fn run_on(
    fs: &mut Fs,
    cache: &mut LinkCache,
    searcher: &mut PathSearcher,
    ctx: &Ctx,
    ops: &mut Vec<Op>,
) -> (r: Result<Vec<FileReport>, FsError>)
    requires
        old(fs)@.wf(),
        old(cache)@.wf(),
        old(searcher)@.wf(),
        old(searcher)@.ignore == ctx.basic.ignore.deep_view(),
        !is_prefix_of(ctx.src@, ctx.target@),
        !is_prefix_of(ctx.target@, ctx.src@),
        old(cache)@.next_id as int + old(fs)@.files.len() as int <= i32::MAX as int,
        old(fs)@.next_inode as int + 5 * old(fs)@.files.len() as int <= u64::MAX as int,
    ensures
        final(fs)@.wf(),
        final(cache)@.wf(),
        final(searcher)@.wf(),
        final(searcher)@.ignore == old(searcher)@.ignore,
        fs_grows(old(fs)@, final(fs)@),
        untouched_outside(old(fs)@, final(fs)@, ctx.target@),
        final(ops).deep_view().subrange(0, old(ops).deep_view().len() as int) == old(
            ops,
        ).deep_view(),
        old(ops).deep_view().len() <= final(ops).deep_view().len(),
        forall|s: Seq<Seq<char>>|
            #[trigger] cache_ok(old(fs)@, old(cache)@, s) ==> cache_ok(
                final(fs)@,
                final(cache)@,
                s,
            ),
        ctx.dry_run && old(fs)@.is_dir(ctx.src@ + ctx.relative@) ==> r is Ok,
        ctx.dry_run && old(fs)@.has_file(ctx.src@ + ctx.relative@) && ctx.relative@.len() >= 1
            ==> r is Ok,
        old(fs)@.is_dir(ctx.src@ + ctx.relative@) && (forall|j: int|
            #[trigger] eligible_file(old(fs)@, *ctx, j) ==> cache_ok(
                old(fs)@,
                old(cache)@,
                old(fs)@.files[j].path,
            )) ==> r is Ok,
        old(fs)@.is_dir(ctx.src@ + ctx.relative@) && r is Ok ==> {
            &&& ((forall|j: int|
                #[trigger] eligible_file(old(fs)@, *ctx, j) ==> cache_ok(
                    old(fs)@,
                    old(cache)@,
                    old(fs)@.files[j].path,
                )) ==> {
                &&& final(fs)@ == old(fs)@
                &&& final(cache)@ == old(cache)@
                &&& final(searcher)@ == old(searcher)@
                &&& final(ops).deep_view() == old(ops).deep_view()
            })
            &&& (!ctx.dry_run ==> forall|j: int|
                #[trigger] eligible_file(old(fs)@, *ctx, j) ==> cache_ok(
                    final(fs)@,
                    final(cache)@,
                    old(fs)@.files[j].path,
                ))
            &&& forall|q: Seq<Seq<char>>|
                #[trigger] final(fs)@.has_file(q) && !old(fs)@.has_file(q)
                    ==> exists|rel: Seq<Seq<char>>|
                    #[trigger] subject_rel(old(fs)@, *ctx, rel) && ((q == ideal_target_spec(
                        ctx.target@,
                        rel,
                    ) && final(fs)@.file_at(q).inode == old(fs)@.file_at(ctx.src@ + rel).inode)
                        || (exists|e: Seq<char>|
                        sidecar_exts_spec().contains(e) && q == sibling_with_ext(
                            ideal_target_spec(ctx.target@, rel),
                            e,
                        )) && final(fs)@.file_at(q).inode >= old(fs)@.next_inode)
            &&& forall|q: Seq<Seq<char>>|
                #[trigger] final(fs)@.is_dir(q) && !old(fs)@.is_dir(q) ==> exists|
                    rel: Seq<Seq<char>>,
                |
                    #[trigger] subject_rel(old(fs)@, *ctx, rel) && is_prefix_of(
                        q,
                        ideal_target_spec(ctx.target@, rel).drop_last(),
                    )
            &&& forall|s: Seq<Seq<char>>|
                #[trigger] final(cache)@.has_src(s) && !old(cache)@.has_src(s) ==> exists|
                    rel: Seq<Seq<char>>,
                | #[trigger] subject_rel(old(fs)@, *ctx, rel) && s == ctx.src@ + rel
            &&& forall|s: Seq<Seq<char>>|
                old(cache)@.has_src(s) && !(#[trigger] final(cache)@.has_src(s)) ==> exists|
                    rel: Seq<Seq<char>>,
                | #[trigger] subject_rel(old(fs)@, *ctx, rel) && s == ctx.src@ + rel
        },
        old(fs)@.is_dir(ctx.src@ + ctx.relative@) && r is Err ==> {
            &&& (r == Err::<Vec<FileReport>, FsError>(FsError::CreateDirOnFile) || r == Err::<
                Vec<FileReport>,
                FsError,
            >(FsError::CopySourceNotFile) || r == Err::<Vec<FileReport>, FsError>(
                FsError::CopyTargetIsDir,
            ))
            &&& !ctx.dry_run
            &&& exists|rel: Seq<Seq<char>>, e: FsError|
                subject_rel(old(fs)@, *ctx, rel) && r == Err::<Vec<FileReport>, FsError>(e)
                    && #[trigger] pass_obstruction(final(fs)@, *ctx, rel, e)
        },
        old(fs)@.has_file(ctx.src@ + ctx.relative@) && ctx.relative@.len() >= 1 && r is Err
            ==> {
            &&& (r == Err::<Vec<FileReport>, FsError>(FsError::CreateDirOnFile) || r == Err::<
                Vec<FileReport>,
                FsError,
            >(FsError::CopySourceNotFile) || r == Err::<Vec<FileReport>, FsError>(
                FsError::CopyTargetIsDir,
            ))
            &&& !ctx.dry_run
            &&& is_media_name(ctx.relative@.last(), ctx.basic.media_ext.deep_view())
            &&& exists|e: FsError|
                r == Err::<Vec<FileReport>, FsError>(e) && #[trigger] pass_obstruction(
                    final(fs)@,
                    *ctx,
                    ctx.relative@,
                    e,
                )
        },
        old(cache)@.next_id <= final(cache)@.next_id,
        final(cache)@.next_id as int <= old(cache)@.next_id as int + old(fs)@.files.len() as int,
        old(fs)@.next_inode <= final(fs)@.next_inode,
        final(fs)@.next_inode as int <= old(fs)@.next_inode as int + 5 * old(
            fs,
        )@.files.len() as int,
        !old(fs)@.path_exists(ctx.src@ + ctx.relative@) ==> r == Err::<
            Vec<FileReport>,
            FsError,
        >(FsError::SourceMissing) && final(fs)@ == old(fs)@ && final(cache)@ == old(cache)@
            && final(searcher)@ == old(searcher)@ && final(ops).deep_view() == old(
            ops,
        ).deep_view(),
        old(fs)@.has_file(ctx.src@ + ctx.relative@) && ctx.relative@.len() == 0 ==> r == Err::<
            Vec<FileReport>,
            FsError,
        >(FsError::SourceNotDirectory) && final(fs)@ == old(fs)@ && final(cache)@ == old(
            cache,
        )@ && final(searcher)@ == old(searcher)@ && final(ops).deep_view() == old(
            ops,
        ).deep_view(),
{
    let base = ctx.src.concat(&ctx.relative);
    if fs.is_dir(&base) {
        let r = run_on_dir(fs, cache, searcher, ctx, ops);
        proof {
            if r is Err {
                let e = r->Err_0;
                let rel = choose|rel: Seq<Seq<char>>|
                    #[trigger] subject_rel(old(fs)@, *ctx, rel) && pass_obstruction(
                        fs@,
                        *ctx,
                        rel,
                        e,
                    );
                assert(subject_rel(old(fs)@, *ctx, rel) && r == Err::<Vec<FileReport>, FsError>(
                    e,
                ) && pass_obstruction(fs@, *ctx, rel, e));
            }
        }
        r
    } else if fs.is_file(&base) {
        if ctx.relative.len() == 0 {
            return Err(FsError::SourceNotDirectory);
        }
        proof {
            assert(old(fs)@.files.len() >= 1) by {
                let w = old(fs)@.file_index(base@);
            }
        }
        let mut reports: Vec<FileReport> = Vec::new();
        let ghost pre_fs = fs@;
        match run_on_file(fs, cache, searcher, ctx, ops) {
            Ok(rep) => {
                reports.push(rep);
            },
            Err(e) => {
                proof {
                    // The obstruction named by the per-file contract is
                    // still visible in the final state.
                    let ideal = ideal_target_spec(ctx.target@, ctx.relative@);
                    assert(pass_obstruction(fs@, *ctx, ctx.relative@, e)) by {
                        if e == FsError::CreateDirOnFile {
                            let kk = choose|kk: int|
                                1 <= kk <= ideal.drop_last().len() && pre_fs.has_file(
                                    ideal.drop_last().subrange(0, kk),
                                );
                            assert(fs@.has_file(ideal.drop_last().subrange(0, kk)));
                        } else {
                            let sp = src_path_spec(*ctx);
                            let x = choose|x: Seq<char>|
                                sidecar_exts_spec().contains(x) && (pre_fs.is_dir(
                                    sibling_with_ext(sp, x),
                                ) || (pre_fs.has_file(sibling_with_ext(sp, x))
                                    && pre_fs.is_dir(sibling_with_ext(ideal, x))));
                            if pre_fs.is_dir(sibling_with_ext(sp, x)) {
                                assert(fs@.is_dir(sibling_with_ext(sp, x)));
                            } else {
                                assert(fs@.has_file(sibling_with_ext(sp, x)));
                                assert(fs@.is_dir(sibling_with_ext(ideal, x)));
                            }
                        }
                    }
                }
                return Err(e);
            },
        }
        proof {
            // A file cannot have files below it, so nothing was eligible: an
            // eligible file's ancestor at the base would be both a file and a
            // directory.
            assert forall|j: int| !eligible_file(old(fs)@, *ctx, j) by {
                if eligible_file(old(fs)@, *ctx, j) {
                    let p = old(fs)@.files[j].path;
                    let parent = p.drop_last();
                    assert(old(fs)@.dirs.contains(parent));
                    let w = choose|m: int|
                        0 <= m < old(fs)@.dirs.len() && old(fs)@.dirs[m] == parent;
                    if base@.len() == parent.len() {
                        assert(base@ =~= parent);
                    } else {
                        assert(parent.subrange(0, base@.len() as int) =~= base@);
                        assert(old(fs)@.dirs.contains(
                            old(fs)@.dirs[w].subrange(0, base@.len() as int),
                        ));
                        assert(old(fs)@.dirs[w].subrange(0, base@.len() as int) == base@);
                    }
                    assert(old(fs)@.is_dir(base@));
                    let wi = old(fs)@.file_index(base@);
                    assert(old(fs)@.files[wi].path == base@);
                }
            }
        }
        Ok(reports)
    } else {
        Err(FsError::SourceMissing)
    }
}


/// Idempotence, stated across two passes: once a pass over an unchanged
/// source tree has brought every subject file under a vouched-for cache
/// record, the subjects of the next pass are already all vouched for — so
/// by the pass's own contract that next pass changes nothing and performs
/// no filesystem operation.
///
/// `fs0` is the state a completed pass started from, `fs1` and `cache1` the
/// state it left behind: it only added files, all of them on the target
/// side, and every subject file of `fs0` ended vouched for.
pub proof fn lemma_second_pass_idle(
    fs0: FsView,
    fs1: FsView,
    cache1: LinkCacheView,
    ctx: Ctx,
)
    requires
        fs0.wf(),
        fs1.wf(),
        !is_prefix_of(ctx.src@, ctx.target@),
        !is_prefix_of(ctx.target@, ctx.src@),
        forall|q: Seq<Seq<char>>| #[trigger] fs0.has_file(q) ==> fs1.has_file(q),
        forall|q: Seq<Seq<char>>|
            #[trigger] fs1.has_file(q) && !fs0.has_file(q) ==> is_prefix_of(ctx.target@, q),
        forall|j: int|
            #[trigger] eligible_file(fs0, ctx, j) ==> cache_ok(fs1, cache1, fs0.files[j].path),
    ensures
        forall|j: int|
            #[trigger] eligible_file(fs1, ctx, j) ==> cache_ok(fs1, cache1, fs1.files[j].path),
{
    let base = ctx.src@ + ctx.relative@;
    assert forall|j: int| #[trigger] eligible_file(fs1, ctx, j) implies cache_ok(
        fs1,
        cache1,
        fs1.files[j].path,
    ) by {
        let p = fs1.files[j].path;
        fs1.lemma_file_index(j);
        assert(fs0.has_file(p)) by {
            if !fs0.has_file(p) {
                // A fresh file would sit under both roots at once.
                assert(is_prefix_of(ctx.target@, p));
                assert(is_prefix_of(ctx.src@, p)) by {
                    assert(p.subrange(0, ctx.src@.len() as int) =~= base.subrange(
                        0,
                        ctx.src@.len() as int,
                    ));
                    assert(base.subrange(0, ctx.src@.len() as int) =~= ctx.src@);
                }
                if ctx.target@.len() <= ctx.src@.len() {
                    lemma_prefix_of_prefix(ctx.target@, ctx.src@, p);
                } else {
                    lemma_prefix_of_prefix(ctx.src@, ctx.target@, p);
                }
            }
        }
        let j0 = fs0.file_index(p);
        assert(fs0.files[j0].path == p);
        assert(eligible_file(fs0, ctx, j0));
        assert(cache_ok(fs1, cache1, p));
    }
}


} // verus!
