//! A persistent path that shares its prefix: each node holds its last element
//! and the path before it.
use vstd::prelude::*;
use std::sync::Arc;

verus! {

/// A nonempty path, stored newest element first, whose prefix may be shared.
#[derive(Debug)]
pub struct ReversePath<T> {
    past: Option<Arc<ReversePath<T>>>,
    this: Arc<T>,
}

/// The elements of an optional path, oldest first.
pub closed spec fn path_view<T>(p: Option<Arc<ReversePath<T>>>) -> Seq<T>
    decreases p,
{
    match p {
        None => Seq::empty(),
        Some(node) => path_view(node.past).push(*node.this),
    }
}

impl<T> View for ReversePath<T> {
    type V = Seq<T>;

    /// The elements, oldest first.
    closed spec fn view(&self) -> Seq<T> {
        path_view(self.past).push(*self.this)
    }
}

impl<T> ReversePath<T> {
    /// Add an element to a path.
    pub fn push(v: Option<Arc<ReversePath<T>>>, s: Arc<T>) -> (r: Arc<ReversePath<T>>)
        ensures
            r@ == path_view(v).push(*s),
    {
        Arc::new(ReversePath { past: v, this: s })
    }

    /// The path through these elements, in order; a path must have at least
    /// one element.
    pub fn try_from_vec(v: Vec<T>) -> (r: Result<ReversePath<T>, &'static str>)
        ensures
            v@.len() == 0 <==> r is Err,
            r matches Ok(p) ==> p@ == v@,
    {
        let ghost all = v@;
        let mut v = v;
        if v.len() == 0 {
            return Err("Reverse Path must have at least one element.");
        }
        let last = v.pop().unwrap();
        let ghost init = v@;
        assert(init == all.drop_last());
        let mut rest: Vec<T> = Vec::new();
        let mut k: usize = v.len();
        while k > 0
            invariant
                k <= init.len(),
                v@ == init.take(k as int),
                rest@ == init.skip(k as int).reverse(),
            decreases k,
        {
            let x = v.pop().unwrap();
            assert(init.skip(k - 1) =~= seq![x] + init.skip(k as int));
            proof {
                assert(rest@.push(x) =~= init.skip(k - 1).reverse());
            }
            rest.push(x);
            assert(v@ =~= init.take(k - 1));
            k -= 1;
        }
        assert(init.skip(0) =~= init);
        let mut path: Option<Arc<ReversePath<T>>> = None;
        let mut j: usize = 0;
        let ghost n = init.len();
        assert(n <= usize::MAX);
        while rest.len() > 0
            invariant
                j <= n,
                n == init.len(),
                n <= usize::MAX,
                rest@ == init.skip(j as int).reverse(),
                path_view(path) == init.take(j as int),
            decreases rest@.len(),
        {
            let x = rest.pop().unwrap();
            assert(x == init[j as int]);
            assert(rest@ =~= init.skip(j + 1).reverse());
            path = Some(ReversePath::push(path, Arc::new(x)));
            assert(init.take(j + 1) =~= init.take(j as int).push(init[j as int]));
            j += 1;
        }
        assert(init.take(j as int) =~= init);
        let p = ReversePath { past: path, this: Arc::new(last) };
        assert(p@ =~= all);
        Ok(p)
    }
}

impl<T: Copy> ReversePath<T> {
    /// The elements of the path, oldest first.
    pub fn to_vec(&self) -> (r: Vec<T>)
        ensures
            r@ == self@,
    {
        let mut result: Vec<T> = Vec::new();
        result.push(*self.this);
        let mut node = &self.past;
        loop
            invariant
                path_view(*node) + result@.reverse() == self@,
            ensures
                result@.reverse() == self@,
            decreases path_view(*node).len(),
        {
            match node {
                Some(v) => {
                    assert(path_view(*node) == path_view(v.past).push(*v.this));
                    result.push(*v.this);
                    assert(path_view(v.past) + result@.reverse() =~= self@);
                    node = &v.past;
                },
                None => {
                    assert(path_view(*node) + result@.reverse() =~= result@.reverse());
                    break;
                },
            }
        }
        let ghost forward = result@;
        let mut out: Vec<T> = Vec::new();
        let mut k: usize = result.len();
        assert(forward.skip(k as int) =~= Seq::<T>::empty());
        while k > 0
            invariant
                k <= forward.len(),
                result@ == forward.take(k as int),
                out@ == forward.skip(k as int).reverse(),
            decreases k,
        {
            let x = result.pop().unwrap();
            assert(forward.skip(k - 1) =~= seq![x] + forward.skip(k as int));
            assert(out@.push(x) =~= forward.skip(k - 1).reverse());
            out.push(x);
            assert(result@ =~= forward.take(k - 1));
            k -= 1;
        }
        assert(forward.skip(0) =~= forward);
        out
    }
}

} // verus!
