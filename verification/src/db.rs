//! The link cache: a persisted memo from source path to the target path that
//! was once established for it.
//!
//! The cache is a thin key-value store. It is a *memo*, not ground truth: the
//! reconciler always re-validates a record against the live filesystem before
//! trusting it, and deletes it when its target is gone. At most one record
//! exists per source path; a record is never updated in place, only deleted
//! and re-inserted. The binary mirrors every mutation into the real store.

use vstd::prelude::*;

use crate::paths::FsPath;
use crate::util::{push_deep, remove_deep};

verus! {

/// One cache record: a source path and the target once linked for it.
pub struct Link {
    pub id: i32,
    pub src: FsPath,
    pub target: FsPath,
}

/// The mathematical value of a `Link`.
pub ghost struct LinkView {
    pub id: i32,
    pub src: Seq<Seq<char>>,
    pub target: Seq<Seq<char>>,
}

impl View for Link {
    type V = LinkView;

    open spec fn view(&self) -> LinkView {
        LinkView { id: self.id, src: self.src@, target: self.target@ }
    }
}

impl DeepView for Link {
    type V = LinkView;

    open spec fn deep_view(&self) -> LinkView {
        self.view()
    }
}

/// The mathematical value of the whole cache.
pub ghost struct LinkCacheView {
    pub records: Seq<LinkView>,
    pub next_id: i32,
}

impl LinkCacheView {
    /// A record exists for this source path.
    pub open spec fn has_src(self, src: Seq<Seq<char>>) -> bool {
        exists|i: int| 0 <= i < self.records.len() && self.records[i].src == src
    }

    /// The index of the record for this source path.
    pub open spec fn record_index(self, src: Seq<Seq<char>>) -> int {
        choose|i: int| 0 <= i < self.records.len() && self.records[i].src == src
    }

    /// The record for this source path.
    pub open spec fn record_for(self, src: Seq<Seq<char>>) -> LinkView {
        self.records[self.record_index(src)]
    }

    /// A record exists with this id.
    pub open spec fn has_id(self, id: i32) -> bool {
        exists|i: int| 0 <= i < self.records.len() && self.records[i].id == id
    }

    /// Ids are unique and below the allocation cursor, and at most one
    /// record exists per source path.
    pub open spec fn wf(self) -> bool {
        &&& forall|i: int, j: int|
            0 <= i < j < self.records.len() ==> (#[trigger] self.records[i]).id != (
            #[trigger] self.records[j]).id
        &&& forall|i: int, j: int|
            0 <= i < j < self.records.len() ==> (#[trigger] self.records[i]).src != (
            #[trigger] self.records[j]).src
        &&& forall|i: int| 0 <= i < self.records.len() ==> (#[trigger] self.records[i]).id
            < self.next_id
    }

    /// With unique sources, any index holding `src` is the record's index.
    pub proof fn lemma_record_index(self, i: int)
        requires
            self.wf(),
            0 <= i < self.records.len(),
        ensures
            self.record_index(self.records[i].src) == i,
            self.record_for(self.records[i].src) == self.records[i],
            self.has_src(self.records[i].src),
    {
        let s = self.records[i].src;
        assert(self.has_src(s));
        let j = self.record_index(s);
        if i < j {
            assert(self.records[i].src != self.records[j].src);
        } else if j < i {
            assert(self.records[j].src != self.records[i].src);
        }
    }
}

/// The executable cache state.
pub struct LinkCache {
    pub records: Vec<Link>,
    pub next_id: i32,
}

impl View for LinkCache {
    type V = LinkCacheView;

    open spec fn view(&self) -> LinkCacheView {
        LinkCacheView { records: self.records.deep_view(), next_id: self.next_id }
    }
}

impl LinkCache {
    /// An empty cache.
    pub fn new() -> (r: LinkCache)
        ensures
            r@.wf(),
            r@.records == Seq::<LinkView>::empty(),
            r@.next_id == 1,
    {
        let r = LinkCache { records: Vec::new(), next_id: 1 };
        proof {
            assert(r@.records =~= Seq::<LinkView>::empty());
        }
        r
    }

    /// Number of records held.
    pub fn len(&self) -> (r: usize)
        ensures
            r == self@.records.len(),
    {
        self.records.len()
    }
}

impl Link {
    /// The record for a source path, if one is cached.
    pub fn from_src<'a>(src: &FsPath, conn: &'a LinkCache) -> (r: Option<&'a Link>)
        requires
            conn@.wf(),
        ensures
            match r {
                Some(l) => conn@.has_src(src@) && l@ == conn@.record_for(src@),
                None => !conn@.has_src(src@),
            },
    {
        let n: usize = conn.records.len();
        let mut i: usize = 0;
        while i < n
            invariant
                conn@.wf(),
                n == conn.records.len(),
                i <= n,
                forall|j: int| 0 <= j < i ==> (#[trigger] conn@.records[j]).src != src@,
            decreases n - i,
        {
            proof {
                assert(conn@.records[i as int] == conn.records@[i as int].deep_view());
            }
            if conn.records[i].src.path_eq(src) {
                proof {
                    conn@.lemma_record_index(i as int);
                }
                return Some(&conn.records[i]);
            }
            i = i + 1;
        }
        None
    }

    /// Delete the record with this id, if it is there; a missing id is not
    /// an error, as deleting an already-deleted row is not.
    pub fn delete(id: i32, conn: &mut LinkCache)
        requires
            old(conn)@.wf(),
        ensures
            final(conn)@.wf(),
            final(conn)@.next_id == old(conn)@.next_id,
            !final(conn)@.has_id(id),
            forall|s: Seq<Seq<char>>|
                #[trigger] final(conn)@.has_src(s) <==> old(conn)@.has_src(s) && old(
                    conn,
                )@.record_for(s).id != id,
            forall|s: Seq<Seq<char>>|
                final(conn)@.has_src(s) ==> final(conn)@.record_for(s) == old(conn)@.record_for(s),
    {
        let n: usize = conn.records.len();
        let mut i: usize = 0;
        while i < n
            invariant
                conn@ == old(conn)@,
                conn@.wf(),
                n == conn.records.len(),
                i <= n,
                forall|j: int| 0 <= j < i ==> (#[trigger] conn@.records[j]).id != id,
            decreases n - i,
        {
            proof {
                assert(conn@.records[i as int] == conn.records@[i as int].deep_view());
            }
            if conn.records[i].id == id {
                remove_deep(&mut conn.records, i);
                proof {
                    let pre = old(conn)@;
                    let post = conn@;
                    let iv = i as int;
                    assert forall|a: int, b: int| 0 <= a < b < post.records.len() implies (
                    #[trigger] post.records[a]).id != (#[trigger] post.records[b]).id && (
                    #[trigger] post.records[a]).src != (#[trigger] post.records[b]).src by {
                        let a0 = if a < iv { a } else { a + 1 };
                        let b0 = if b < iv { b } else { b + 1 };
                        assert(pre.records[a0] == post.records[a]);
                        assert(pre.records[b0] == post.records[b]);
                    }
                    assert forall|a: int| 0 <= a < post.records.len() implies (
                    #[trigger] post.records[a]).id < post.next_id by {
                        let a0 = if a < iv { a } else { a + 1 };
                        assert(pre.records[a0] == post.records[a]);
                    }
                    assert(!post.has_id(id)) by {
                        if post.has_id(id) {
                            let w = choose|m: int|
                                0 <= m < post.records.len() && post.records[m].id == id;
                            let w0 = if w < iv { w } else { w + 1 };
                            assert(pre.records[w0] == post.records[w]);
                            assert(w0 != iv);
                            assert(pre.records[w0].id != pre.records[iv].id);
                        }
                    }
                    assert forall|s: Seq<Seq<char>>| #[trigger] post.has_src(s) implies (
                    pre.has_src(s) && pre.record_for(s).id != id) by {
                        let w = post.record_index(s);
                        let w0 = if w < iv { w } else { w + 1 };
                        assert(pre.records[w0] == post.records[w]);
                        pre.lemma_record_index(w0);
                    }
                    assert forall|s: Seq<Seq<char>>| (pre.has_src(s) && pre.record_for(s).id != id)
                        implies #[trigger] post.has_src(s) by {
                        let w0 = pre.record_index(s);
                        assert(w0 != iv);
                        let w = if w0 < iv { w0 } else { w0 - 1 };
                        assert(post.records[w] == pre.records[w0]);
                    }
                    assert forall|s: Seq<Seq<char>>| post.has_src(s) implies post.record_for(s)
                        == pre.record_for(s) by {
                        let w = post.record_index(s);
                        let w0 = if w < iv { w } else { w + 1 };
                        assert(pre.records[w0] == post.records[w]);
                        post.lemma_record_index(w);
                        pre.lemma_record_index(w0);
                    }
                }
                return ;
            }
            i = i + 1;
        }
        proof {
            assert(!conn@.has_id(id)) by {
                if conn@.has_id(id) {
                    let w = choose|m: int|
                        0 <= m < conn@.records.len() && conn@.records[m].id == id;
                }
            }
            assert forall|s: Seq<Seq<char>>| #[trigger] conn@.has_src(s) implies conn@.record_for(
                s,
            ).id != id by {
                let w = conn@.record_index(s);
            }
        }
    }

    /// Insert a fresh record mapping `src` to `target`.
    pub fn link(src: &FsPath, target: &FsPath, conn: &mut LinkCache)
        requires
            old(conn)@.wf(),
            !old(conn)@.has_src(src@),
            old(conn)@.next_id < i32::MAX,
        ensures
            final(conn)@.wf(),
            final(conn)@.records == old(conn)@.records.push(
                LinkView { id: old(conn)@.next_id, src: src@, target: target@ },
            ),
            final(conn)@.next_id == old(conn)@.next_id + 1,
    {
        let id = conn.next_id;
        conn.next_id = conn.next_id + 1;
        let rec = Link { id, src: src.duplicate(), target: target.duplicate() };
        push_deep(&mut conn.records, rec);
        proof {
            let pre = old(conn)@;
            let post = conn@;
            assert forall|a: int, b: int| 0 <= a < b < post.records.len() implies (
            #[trigger] post.records[a]).id != (#[trigger] post.records[b]).id && (
            #[trigger] post.records[a]).src != (#[trigger] post.records[b]).src by {
                if b < post.records.len() - 1 {
                    assert(pre.records[a] == post.records[a]);
                    assert(pre.records[b] == post.records[b]);
                } else {
                    assert(pre.records[a] == post.records[a]);
                    if post.records[a].src == src@ {
                        pre.lemma_record_index(a);
                    }
                }
            }
            assert forall|a: int| 0 <= a < post.records.len() implies (
            #[trigger] post.records[a]).id < post.next_id by {
                if a < post.records.len() - 1 {
                    assert(pre.records[a] == post.records[a]);
                }
            }
        }
    }
}

} // verus!
