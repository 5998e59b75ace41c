//! The command surface: where the configuration file lives, whether the run
//! is a rehearsal, and the execution of one configured rule.
//!
//! Reading the configuration file, parsing it and opening the store are
//! outside duties; the binary performs them and hands the library plain
//! values.

use vstd::prelude::*;

use crate::config::Rule;
use crate::fsmodel::{Fs, FsError};
use crate::handler::Handler;
use crate::link::{link_dir, mapped_target, placed_file_ok, setperm_disciplined, walked_dir, walked_file};
use crate::paths::is_prefix_of;
use crate::runner::{cache_ok, fs_grows, untouched_outside, Op};

verus! {

/// The command-line surface.
pub struct Cli {
    /// Path of the configuration file.
    pub config: String,
    /// Log intended actions without touching the filesystem.
    pub dry_run: bool,
}

impl Cli {
    /// Run one configured rule: mirror the rule's source tree into its
    /// target tree under the handler's policy.
    pub fn run_rule(
        handler: &mut Handler,
        fs: &mut Fs,
        rule: &Rule,
        ops: &mut Vec<Op>,
    ) -> (r: Result<(), FsError>)
        requires
            old(fs)@.wf(),
            old(handler).wf(),
            !is_prefix_of(rule.src@, rule.target@),
            !is_prefix_of(rule.target@, rule.src@),
            old(handler).db@.next_id as int + old(fs)@.files.len() as int <= i32::MAX as int,
            old(fs)@.next_inode as int + old(fs)@.files.len() as int <= u64::MAX as int,
        ensures
            final(fs)@.wf(),
            final(handler).wf(),
            final(handler).basic == old(handler).basic,
            fs_grows(old(fs)@, final(fs)@),
            untouched_outside(old(fs)@, final(fs)@, rule.target@),
            final(ops).deep_view().subrange(0, old(ops).deep_view().len() as int) == old(ops).deep_view(),
            old(ops).deep_view().len() <= final(ops).deep_view().len(),
            setperm_disciplined(
                old(ops).deep_view().len() as int,
                final(ops).deep_view(),
                old(handler).basic.uid,
                old(handler).basic.gid,
            ),
            forall|s: Seq<Seq<char>>|
                #[trigger] cache_ok(old(fs)@, old(handler).db@, s) ==> cache_ok(
                    final(fs)@,
                    final(handler).db@,
                    s,
                ),
            !old(fs)@.path_exists(rule.src@) ==> r == Err::<(), FsError>(FsError::SourceMissing),
            old(fs)@.has_file(rule.src@) ==> r == Err::<(), FsError>(FsError::SourceNotDirectory),
            old(fs)@.is_dir(rule.src@) && !old(fs)@.path_exists(rule.target@) ==> r == Err::<
                (),
                FsError,
            >(FsError::TargetMissing),
            old(fs)@.is_dir(rule.src@) && old(fs)@.has_file(rule.target@) ==> r == Err::<
                (),
                FsError,
            >(FsError::TargetNotDirectory),
            (r == Err::<(), FsError>(FsError::SourceMissing) || r == Err::<(), FsError>(
                FsError::SourceNotDirectory,
            ) || r == Err::<(), FsError>(FsError::TargetMissing) || r == Err::<(), FsError>(
                FsError::TargetNotDirectory,
            )) ==> final(fs)@ == old(fs)@ && final(handler).db@ == old(handler).db@ && final(handler).searcher@ == old(handler).searcher@ && final(ops).deep_view() == old(ops).deep_view(),
            old(fs)@.is_dir(rule.src@) && old(fs)@.is_dir(rule.target@) && r is Err ==> (r
                == Err::<(), FsError>(FsError::CreateDirOnFile) || r == Err::<(), FsError>(
                FsError::CopyTargetIsDir,
            )),
            r == Err::<(), FsError>(FsError::CreateDirOnFile) ==> exists|j: int, k: int|
                walked_dir(old(fs)@, old(handler).basic.ignore.deep_view(), rule.src@, j)
                    && rule.target@.len() < k <= mapped_target(
                    rule.src@,
                    rule.target@,
                    old(fs)@.dirs[j],
                ).len() && old(fs)@.has_file(
                    #[trigger] mapped_target(rule.src@, rule.target@, old(fs)@.dirs[j]).subrange(
                        0,
                        k,
                    ),
                ),
            r == Err::<(), FsError>(FsError::CopyTargetIsDir) ==> exists|j: int|
                walked_file(old(fs)@, old(handler).basic.ignore.deep_view(), rule.src@, j)
                    && old(fs)@.is_dir(
                    #[trigger] mapped_target(rule.src@, rule.target@, old(fs)@.files[j].path),
                ),
            (old(fs)@.is_dir(rule.src@) && old(fs)@.is_dir(rule.target@) && (forall|
                j: int,
                k: int,
            |
                walked_dir(old(fs)@, old(handler).basic.ignore.deep_view(), rule.src@, j)
                    && rule.target@.len() < k <= mapped_target(
                    rule.src@,
                    rule.target@,
                    old(fs)@.dirs[j],
                ).len() ==> !old(fs)@.has_file(
                    #[trigger] mapped_target(rule.src@, rule.target@, old(fs)@.dirs[j]).subrange(
                        0,
                        k,
                    ),
                )) && (forall|j: int|
                walked_file(old(fs)@, old(handler).basic.ignore.deep_view(), rule.src@, j)
                    ==> !old(fs)@.is_dir(
                    #[trigger] mapped_target(rule.src@, rule.target@, old(fs)@.files[j].path),
                ))) ==> r is Ok,
            forall|q: Seq<Seq<char>>|
                #[trigger] final(fs)@.is_dir(q) && !old(fs)@.is_dir(q) ==> exists|j: int|
                    walked_dir(old(fs)@, old(handler).basic.ignore.deep_view(), rule.src@, j)
                        && is_prefix_of(
                        q,
                        mapped_target(rule.src@, rule.target@, old(fs)@.dirs[j]),
                    ) && q.len() > rule.target@.len(),
            forall|q: Seq<Seq<char>>|
                #[trigger] final(fs)@.has_file(q) && !old(fs)@.has_file(q) ==> placed_file_ok(
                    old(fs)@,
                    final(fs)@,
                    old(handler).basic.ignore.deep_view(),
                    old(handler).basic.link_ext.deep_view(),
                    old(handler).basic.copy_ext.deep_view(),
                    rule.src@,
                    rule.target@,
                    q,
                ),
            r is Ok ==> {
                &&& forall|j: int|
                    #[trigger] walked_dir(
                        old(fs)@,
                        old(handler).basic.ignore.deep_view(),
                        rule.src@,
                        j,
                    ) ==> final(fs)@.is_dir(
                        mapped_target(rule.src@, rule.target@, old(fs)@.dirs[j]),
                    )
                &&& forall|j: int|
                    #[trigger] walked_file(
                        old(fs)@,
                        old(handler).basic.ignore.deep_view(),
                        rule.src@,
                        j,
                    ) && (crate::paths::extension_spec(
                        old(fs)@.files[j].path.last(),
                    ) matches Some(e) && old(handler).basic.link_ext.deep_view().contains(e))
                        ==> final(fs)@.path_exists(
                        mapped_target(rule.src@, rule.target@, old(fs)@.files[j].path),
                    ) || cache_ok(final(fs)@, final(handler).db@, old(fs)@.files[j].path)
                &&& forall|j: int|
                    #[trigger] walked_file(
                        old(fs)@,
                        old(handler).basic.ignore.deep_view(),
                        rule.src@,
                        j,
                    ) && (crate::paths::extension_spec(
                        old(fs)@.files[j].path.last(),
                    ) matches Some(e) && old(handler).basic.copy_ext.deep_view().contains(e)
                        && !old(handler).basic.link_ext.deep_view().contains(e)) ==> final(fs)@.has_file(
                        mapped_target(rule.src@, rule.target@, old(fs)@.files[j].path),
                    ) && final(fs)@.file_at(
                        mapped_target(rule.src@, rule.target@, old(fs)@.files[j].path),
                    ).content == old(fs)@.file_at(old(fs)@.files[j].path).content
            },
    {
        link_dir(fs, handler, &rule.src, &rule.target, ops)
    }
}

} // verus!
