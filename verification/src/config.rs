//! Configuration values: global options and the mirrored trees.
//!
//! A `Config` arrives from outside already parsed; the library only reads it.
//! `Basic` carries the name sets that steer every pass: names the walker never
//! looks at, the extensions that mark a file as media (for the deduplicating
//! reconciler), the extensions that are hardlinked or copied (for the
//! extension-keyed walker policy), and the ownership applied to created
//! directories and copied files.

use vstd::prelude::*;

use crate::paths::FsPath;

verus! {

/// Global options shared by every rule.
pub struct Basic {
    /// Names invisible to the walker, checked at every depth.
    pub ignore: Vec<String>,
    /// Extensions whose files the extension-keyed policy hardlinks.
    pub link_ext: Vec<String>,
    /// Extensions whose files the extension-keyed policy copies.
    pub copy_ext: Vec<String>,
    /// Extensions whose files the deduplicating reconciler mirrors.
    pub media_ext: Vec<String>,
    /// Owner applied to created directories and copied files.
    pub uid: Option<u32>,
    /// Group applied to created directories and copied files.
    pub gid: Option<u32>,
}

/// One tree to mirror: every eligible file under `src` gains a hardlink
/// under `target`.
pub struct Rule {
    pub src: FsPath,
    pub target: FsPath,
}

/// The whole configuration: where the link cache lives, the global options,
/// and the rules.
pub struct Config {
    pub db_url: String,
    pub basic: Basic,
    pub rule: Vec<Rule>,
}

/// Membership of a name in a name set.
pub fn contains_name(set: &Vec<String>, name: &String) -> (r: bool)
    ensures
        r == set.deep_view().contains(name@),
{
    let n: usize = set.len();
    let mut i: usize = 0;
    while i < n
        invariant
            n == set.len() == set.deep_view().len(),
            i <= n,
            forall|j: int| 0 <= j < i ==> set.deep_view()[j] != name@,
        decreases n - i,
    {
        if set[i].eq(name) {
            proof {
                assert(set.deep_view()[i as int] == set@[i as int].deep_view());
            }
            return true;
        }
        proof {
            assert(set.deep_view()[i as int] == set@[i as int].deep_view());
        }
        i = i + 1;
    }
    false
}

/// Some component of `rel` is an ignored name; the walker then never reaches
/// the path, at whatever depth the component sits.
pub open spec fn component_ignored(ignore: Seq<Seq<char>>, rel: Seq<Seq<char>>) -> bool {
    exists|i: int| 0 <= i < rel.len() && ignore.contains(rel[i])
}

/// Whether any component of `rel` is in the ignore set.
pub fn any_component_ignored(ignore: &Vec<String>, rel: &FsPath) -> (r: bool)
    ensures
        r == component_ignored(ignore.deep_view(), rel@),
{
    let n: usize = rel.components.len();
    let mut i: usize = 0;
    while i < n
        invariant
            n == rel.components.len() == rel@.len(),
            i <= n,
            forall|j: int| 0 <= j < i ==> !ignore.deep_view().contains(rel@[j]),
        decreases n - i,
    {
        proof {
            assert(rel@[i as int] == rel.components@[i as int].deep_view());
        }
        if contains_name(ignore, &rel.components[i]) {
            return true;
        }
        i = i + 1;
    }
    false
}

impl Basic {
    /// Whether a bare name is in the ignore set.
    pub fn is_ignored_name(&self, name: &String) -> (r: bool)
        ensures
            r == self.ignore.deep_view().contains(name@),
    {
        contains_name(&self.ignore, name)
    }

    /// A copy of these options.
    pub fn duplicate(&self) -> (r: Basic)
        ensures
            r.ignore.deep_view() == self.ignore.deep_view(),
            r.link_ext.deep_view() == self.link_ext.deep_view(),
            r.copy_ext.deep_view() == self.copy_ext.deep_view(),
            r.media_ext.deep_view() == self.media_ext.deep_view(),
            r.uid == self.uid,
            r.gid == self.gid,
    {
        Basic {
            ignore: crate::util::clone_strings(&self.ignore),
            link_ext: crate::util::clone_strings(&self.link_ext),
            copy_ext: crate::util::clone_strings(&self.copy_ext),
            media_ext: crate::util::clone_strings(&self.media_ext),
            uid: self.uid,
            gid: self.gid,
        }
    }
}

} // verus!
