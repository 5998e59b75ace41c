//! Path values and file-name arithmetic.
//!
//! A path is a sequence of components (directory and file names); the library
//! never touches the operating system's path type, so every fact about a path
//! is a fact about this sequence. File names are split at their last dot into
//! a stem and an extension, following the usual filesystem convention: a name
//! whose only dot is its first character has no extension.

use vstd::prelude::*;

verus! {

/// Components of a filesystem path, relative or absolute; each component is
/// one directory or file name, free of separators.
pub struct FsPath {
    pub components: Vec<String>,
}

impl View for FsPath {
    type V = Seq<Seq<char>>;

    open spec fn view(&self) -> Seq<Seq<char>> {
        self.components.deep_view()
    }
}

/// `p` is a (not necessarily proper) leading portion of `q`.
pub open spec fn is_prefix_of(p: Seq<Seq<char>>, q: Seq<Seq<char>>) -> bool {
    p.len() <= q.len() && q.subrange(0, p.len() as int) == p
}

/// Index of the last `.` in a name, if any.
pub open spec fn last_dot_idx(s: Seq<char>) -> Option<int>
    decreases s.len(),
{
    if s.len() == 0 {
        None
    } else if s[s.len() - 1] == '.' {
        Some(s.len() - 1)
    } else {
        last_dot_idx(s.drop_last())
    }
}

/// The extension of a file name: what follows the last dot, provided that dot
/// is not the leading character (so dotfiles have no extension).
pub open spec fn extension_spec(s: Seq<char>) -> Option<Seq<char>> {
    match last_dot_idx(s) {
        Some(i) => if i > 0 {
            Some(s.subrange(i + 1, s.len() as int))
        } else {
            None
        },
        None => None,
    }
}

/// The stem of a file name: what precedes the last dot, or the whole name
/// when there is no extension-forming dot.
pub open spec fn stem_spec(s: Seq<char>) -> Seq<char> {
    match last_dot_idx(s) {
        Some(i) => if i > 0 {
            s.subrange(0, i)
        } else {
            s
        },
        None => s,
    }
}

proof fn lemma_last_dot_in_range(s: Seq<char>)
    ensures
        match last_dot_idx(s) {
            Some(i) => 0 <= i < s.len() && s[i] == '.',
            None => true,
        },
    decreases s.len(),
{
    if s.len() > 0 && s[s.len() - 1] != '.' {
        lemma_last_dot_in_range(s.drop_last());
    }
}

/// Index of the last `.` in a name, scanning from the end.
fn find_last_dot(name: &str) -> (r: Option<usize>)
    ensures
        match r {
            Some(i) => last_dot_idx(name@) == Some(i as int),
            None => last_dot_idx(name@) is None,
        },
{
    let len: usize = name.unicode_len();
    proof {
        assert(name@.subrange(0, len as int) =~= name@);
    }
    let mut i: usize = len;
    while i > 0
        invariant
            i <= len,
            len == name@.len(),
            last_dot_idx(name@.subrange(0, i as int)) == last_dot_idx(name@),
        decreases i,
    {
        let c = name.get_char(i - 1);
        proof {
            assert(name@.subrange(0, i as int).len() == i);
            assert(name@.subrange(0, i as int)[i - 1] == name@[i - 1]);
        }
        if c == '.' {
            return Some(i - 1);
        }
        proof {
            assert(name@.subrange(0, i as int).drop_last() =~= name@.subrange(
                0,
                i as int - 1,
            ));
        }
        i = i - 1;
    }
    proof {
        assert(name@.subrange(0, 0) =~= Seq::<char>::empty());
    }
    None
}

/// The extension of a file name, as `extension_spec` gives it.
pub fn extension_of(name: &str) -> (r: Option<String>)
    ensures
        match r {
            Some(e) => extension_spec(name@) == Some(e@),
            None => extension_spec(name@) is None,
        },
{
    proof {
        lemma_last_dot_in_range(name@);
    }
    match find_last_dot(name) {
        Some(i) => if i > 0 {
            let len: usize = name.unicode_len();
            let sub = name.substring_char(i + 1, len);
            Some(sub.to_owned())
        } else {
            None
        },
        None => None,
    }
}

/// The stem of a file name, as `stem_spec` gives it.
pub fn stem_of(name: &str) -> (r: String)
    ensures
        r@ == stem_spec(name@),
{
    proof {
        lemma_last_dot_in_range(name@);
    }
    match find_last_dot(name) {
        Some(i) => if i > 0 {
            let sub = name.substring_char(0, i);
            sub.to_owned()
        } else {
            name.to_owned()
        },
        None => name.to_owned(),
    }
}

/// The name that keeps a name's stem but carries the given extension.
pub fn name_with_extension(name: &str, ext: &str) -> (r: String)
    ensures
        r@ == stem_spec(name@) + seq!['.'] + ext@,
{
    let stem = stem_of(name);
    let mut out = stem;
    out.append(".");
    out.append(ext);
    proof {
        reveal_strlit(".");
        assert("."@ =~= seq!['.']);
    }
    out
}

impl FsPath {
    /// The empty path, root of a tree.
    pub fn empty() -> (r: FsPath)
        ensures
            r@ == Seq::<Seq<char>>::empty(),
    {
        let r = FsPath { components: Vec::new() };
        proof {
            assert(r@ =~= Seq::<Seq<char>>::empty());
        }
        r
    }

    /// Number of components.
    pub fn len(&self) -> (r: usize)
        ensures
            r == self@.len(),
    {
        self.components.len()
    }

    /// The last component: the file or directory name the path points at.
    pub fn file_name(&self) -> (r: &String)
        requires
            self@.len() > 0,
        ensures
            r@ == self@.last(),
    {
        let r = &self.components[self.components.len() - 1];
        proof {
            assert(self@.last() == self.components@[self@.len() - 1].deep_view());
        }
        r
    }

    /// Component-wise equality.
    pub fn path_eq(&self, other: &FsPath) -> (r: bool)
        ensures
            r == (self@ == other@),
    {
        if self.components.len() != other.components.len() {
            proof {
                assert(self@.len() != other@.len());
            }
            return false;
        }
        let n: usize = self.components.len();
        let mut i: usize = 0;
        while i < n
            invariant
                n == self@.len() == other@.len(),
                n == self.components.len() == other.components.len(),
                i <= n,
                forall|j: int| 0 <= j < i ==> self@[j] == other@[j],
            decreases n - i,
        {
            if !self.components[i].eq(&other.components[i]) {
                proof {
                    assert(self@[i as int] == self.components@[i as int].deep_view());
                    assert(other@[i as int] == other.components@[i as int].deep_view());
                }
                return false;
            }
            proof {
                assert(self@[i as int] == self.components@[i as int].deep_view());
                assert(other@[i as int] == other.components@[i as int].deep_view());
            }
            i = i + 1;
        }
        proof {
            assert(self@ =~= other@);
        }
        true
    }

    /// Whether `prefix` is a leading portion of this path.
    pub fn starts_with(&self, prefix: &FsPath) -> (r: bool)
        ensures
            r == is_prefix_of(prefix@, self@),
    {
        if prefix.components.len() > self.components.len() {
            return false;
        }
        let n: usize = prefix.components.len();
        let mut i: usize = 0;
        while i < n
            invariant
                n == prefix.components.len() == prefix@.len(),
                n <= self.components.len() == self@.len(),
                i <= n,
                forall|j: int| 0 <= j < i ==> self@[j] == prefix@[j],
            decreases n - i,
        {
            if !self.components[i].eq(&prefix.components[i]) {
                proof {
                    assert(self@[i as int] == self.components@[i as int].deep_view());
                    assert(prefix@[i as int] == prefix.components@[i as int].deep_view());
                    assert(self@.subrange(0, n as int)[i as int] == self@[i as int]);
                }
                return false;
            }
            proof {
                assert(self@[i as int] == self.components@[i as int].deep_view());
                assert(prefix@[i as int] == prefix.components@[i as int].deep_view());
            }
            i = i + 1;
        }
        proof {
            assert(self@.subrange(0, n as int) =~= prefix@);
        }
        true
    }

    /// A copy of this path.
    pub fn duplicate(&self) -> (r: FsPath)
        ensures
            r@ == self@,
    {
        let mut components: Vec<String> = Vec::new();
        let n: usize = self.components.len();
        let mut i: usize = 0;
        while i < n
            invariant
                n == self.components.len() == self@.len(),
                i <= n,
                components.deep_view() == self@.subrange(0, i as int),
            decreases n - i,
        {
            proof {
                assert(self@[i as int] == self.components@[i as int].deep_view());
            }
            crate::util::push_deep(&mut components, self.components[i].clone());
            proof {
                assert(self@.subrange(0, i as int).push(self@[i as int]) =~= self@.subrange(
                    0,
                    i + 1 as int,
                ));
            }
            i = i + 1;
        }
        let r = FsPath { components };
        proof {
            assert(self@.subrange(0, n as int) =~= self@);
        }
        r
    }

    /// This path extended by one more component.
    pub fn join(&self, name: &String) -> (r: FsPath)
        ensures
            r@ == self@.push(name@),
    {
        let mut r = self.duplicate();
        crate::util::push_deep(&mut r.components, name.clone());
        r
    }

    /// This path extended by all of `rel`'s components.
    pub fn concat(&self, rel: &FsPath) -> (r: FsPath)
        ensures
            r@ == self@ + rel@,
    {
        let mut r = self.duplicate();
        let n: usize = rel.components.len();
        let mut i: usize = 0;
        proof {
            assert(self@ + rel@.subrange(0, 0) =~= self@);
        }
        while i < n
            invariant
                n == rel.components.len() == rel@.len(),
                i <= n,
                r@ == self@ + rel@.subrange(0, i as int),
            decreases n - i,
        {
            proof {
                assert(rel@[i as int] == rel.components@[i as int].deep_view());
            }
            crate::util::push_deep(&mut r.components, rel.components[i].clone());
            proof {
                assert((self@ + rel@.subrange(0, i as int)).push(rel@[i as int]) =~= self@
                    + rel@.subrange(0, i + 1 as int));
            }
            i = i + 1;
        }
        proof {
            assert(rel@.subrange(0, n as int) =~= rel@);
        }
        r
    }

    /// The path with its last component removed.
    pub fn parent(&self) -> (r: FsPath)
        requires
            self@.len() > 0,
        ensures
            r@ == self@.drop_last(),
    {
        let mut r = self.duplicate();
        crate::util::pop_deep(&mut r.components);
        r
    }

    /// What remains of this path once the given prefix is removed.
    pub fn strip_prefix(&self, prefix: &FsPath) -> (r: FsPath)
        requires
            is_prefix_of(prefix@, self@),
        ensures
            r@ == self@.subrange(prefix@.len() as int, self@.len() as int),
    {
        let mut components: Vec<String> = Vec::new();
        let start: usize = prefix.components.len();
        let n: usize = self.components.len();
        let mut i: usize = start;
        while i < n
            invariant
                start == prefix@.len(),
                start <= i <= n,
                n == self.components.len() == self@.len(),
                components.deep_view() == self@.subrange(start as int, i as int),
            decreases n - i,
        {
            proof {
                assert(self@[i as int] == self.components@[i as int].deep_view());
            }
            crate::util::push_deep(&mut components, self.components[i].clone());
            proof {
                assert(self@.subrange(start as int, i as int).push(self@[i as int])
                    =~= self@.subrange(start as int, i + 1 as int));
            }
            i = i + 1;
        }
        FsPath { components }
    }

    /// The sibling path whose name keeps this path's stem but carries the
    /// given extension.
    pub fn with_extension(&self, ext: &str) -> (r: FsPath)
        requires
            self@.len() > 0,
        ensures
            r@ == self@.drop_last().push(stem_spec(self@.last()) + seq!['.'] + ext@),
    {
        let mut r = self.parent();
        let name = name_with_extension(self.file_name().as_str(), ext);
        crate::util::push_deep(&mut r.components, name);
        r
    }
}

} // verus!
