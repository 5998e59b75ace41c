//! Small helpers that relate `Vec` mutations to the `deep_view` of the
//! vector, so that callers can reason about element views without unfolding
//! the view of every element themselves.

use vstd::prelude::*;

verus! {

/// Push an element, tracked at the level of element views.
pub fn push_deep<T: DeepView>(v: &mut Vec<T>, x: T)
    ensures
        final(v).deep_view() == old(v).deep_view().push(x.deep_view()),
{
    let ghost pre = v@;
    let ghost pre_deep = v.deep_view();
    let ghost xv = x.deep_view();
    v.push(x);
    proof {
        assert forall|j: int| 0 <= j < v.deep_view().len() implies v.deep_view()[j]
            == pre_deep.push(xv)[j] by {
            assert(v.deep_view()[j] == v@[j].deep_view());
            if j < pre.len() {
                assert(v@[j] == pre[j]);
                assert(pre_deep[j] == pre[j].deep_view());
            }
        }
        assert(v.deep_view() =~= pre_deep.push(xv));
    }
}

/// Copy a vector of strings, preserving its deep view.
pub fn clone_strings(v: &Vec<String>) -> (r: Vec<String>)
    ensures
        r.deep_view() == v.deep_view(),
{
    let mut r: Vec<String> = Vec::new();
    let n: usize = v.len();
    let mut i: usize = 0;
    proof {
        assert(r.deep_view() =~= v.deep_view().subrange(0, 0));
    }
    while i < n
        invariant
            n == v.len(),
            i <= n,
            r.deep_view() == v.deep_view().subrange(0, i as int),
        decreases n - i,
    {
        proof {
            assert(v.deep_view()[i as int] == v@[i as int].deep_view());
        }
        push_deep(&mut r, v[i].clone());
        proof {
            assert(v.deep_view().subrange(0, i as int).push(v.deep_view()[i as int])
                =~= v.deep_view().subrange(0, i + 1 as int));
        }
        i = i + 1;
    }
    proof {
        assert(v.deep_view().subrange(0, n as int) =~= v.deep_view());
    }
    r
}

/// Drop the last element, tracked at the level of element views.
pub fn pop_deep<T: DeepView>(v: &mut Vec<T>)
    requires
        old(v)@.len() > 0,
    ensures
        final(v).deep_view() == old(v).deep_view().drop_last(),
{
    let ghost pre = v@;
    let ghost pre_deep = v.deep_view();
    v.pop();
    proof {
        assert forall|j: int| 0 <= j < v.deep_view().len() implies v.deep_view()[j]
            == pre_deep.drop_last()[j] by {
            assert(v.deep_view()[j] == v@[j].deep_view());
            assert(v@[j] == pre[j]);
            assert(pre_deep[j] == pre[j].deep_view());
        }
        assert(v.deep_view() =~= pre_deep.drop_last());
    }
}

/// Replace the element at `i`, tracked at the level of element views.
pub fn set_deep<T: DeepView>(v: &mut Vec<T>, i: usize, x: T)
    requires
        i < old(v)@.len(),
    ensures
        final(v).deep_view() == old(v).deep_view().update(i as int, x.deep_view()),
{
    let ghost pre = v@;
    let ghost pre_deep = v.deep_view();
    let ghost xv = x.deep_view();
    v.set(i, x);
    proof {
        assert forall|j: int| 0 <= j < v.deep_view().len() implies v.deep_view()[j]
            == pre_deep.update(i as int, xv)[j] by {
            assert(v.deep_view()[j] == v@[j].deep_view());
            if j != i {
                assert(v@[j] == pre[j]);
                assert(pre_deep[j] == pre[j].deep_view());
            }
        }
        assert(v.deep_view() =~= pre_deep.update(i as int, xv));
    }
}

/// Remove the element at `i`, tracked at the level of element views.
pub fn remove_deep<T: DeepView>(v: &mut Vec<T>, i: usize) -> (r: T)
    requires
        i < old(v)@.len(),
    ensures
        final(v).deep_view() == old(v).deep_view().remove(i as int),
        r.deep_view() == old(v).deep_view()[i as int],
{
    let ghost pre = v@;
    let ghost pre_deep = v.deep_view();
    let r = v.remove(i);
    proof {
        assert(pre_deep[i as int] == pre[i as int].deep_view());
        assert forall|j: int| 0 <= j < v.deep_view().len() implies v.deep_view()[j]
            == pre_deep.remove(i as int)[j] by {
            assert(v.deep_view()[j] == v@[j].deep_view());
            if j < i {
                assert(v@[j] == pre[j]);
                assert(pre_deep[j] == pre[j].deep_view());
            } else {
                assert(v@[j] == pre[j + 1]);
                assert(pre_deep[j + 1] == pre[j + 1].deep_view());
            }
        }
        assert(v.deep_view() =~= pre_deep.remove(i as int));
    }
    r
}

} // verus!
