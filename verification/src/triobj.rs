//! The smallest template: one triangle.
//!
//! The triangle is kept as a value of the caller's type and handed out as
//! it was given.

use vstd::prelude::*;

verus! {

/// A template that holds a single triangle.
pub struct TriObj<T: Copy> {
    model: T,
}

impl<T: Copy> TriObj<T> {
    /// The triangle of the template.
    pub closed spec fn triangle(&self) -> T {
        self.model
    }

    /// The template of the given triangle.
    pub fn new(model: T) -> (obj: TriObj<T>)
        ensures
            obj.triangle() == model,
    {
        TriObj { model }
    }

    /// An iterator over the triangles of the template.
    pub fn iter(&self) -> (triangles: IterTriObj<'_, T>)
        ensures
            triangles.template() == *self,
            triangles.remaining() == seq![self.triangle()],
    {
        IterTriObj { triobj: self, idx: 0 }
    }

    /// The triangles of the template: the one that it holds.
    pub fn triangulate(&self) -> (triangles: Vec<T>)
        ensures
            triangles@ == seq![self.triangle()],
    {
        let mut triangles = Vec::new();
        triangles.push(self.model);
        triangles
    }
}

/// Hands out the triangle of a template, once.
pub struct IterTriObj<'a, T: Copy> {
    triobj: &'a TriObj<T>,
    idx: usize,
}

impl<'a, T: Copy> IterTriObj<'a, T> {
    /// The template that is walked.
    pub closed spec fn template(&self) -> TriObj<T> {
        *self.triobj
    }

    /// The triangles that the walk has yet to hand out.
    pub closed spec fn remaining(&self) -> Seq<T> {
        if self.idx == 0 {
            seq![self.triobj.model]
        } else {
            Seq::empty()
        }
    }

    /// The triangle of the template the first time, `None` from then on.
    pub fn next(&mut self) -> (next: Option<T>)
        ensures
            final(self).template() == old(self).template(),
            match next {
                Some(t) => old(self).remaining().len() > 0 && t == old(self).remaining()[0]
                    && final(self).remaining() == old(self).remaining().drop_first(),
                None => old(self).remaining().len() == 0 && final(self).remaining().len() == 0,
            },
    {
        if self.idx == 0 {
            self.idx += 1;
            proof {
                assert(old(self).remaining().drop_first() =~= Seq::<T>::empty());
            }
            Some(self.triobj.model)
        } else {
            None
        }
    }
}

} // verus!
