//! The path of a walk as a stack that the levels of the walk share.

use vstd::prelude::*;
use vstd::slice::slice_subrange;
use crate::text::strings_view;

verus! {

/// The path from the root of a walk to one of its levels. All the levels
/// share one storage: a level owns the first `len` strings of it, and what
/// lies behind them belongs to the levels below.
pub struct StringStack<'p> {
    pub storage: &'p mut Vec<String>,
    pub len: usize,
}

impl<'p> StringStack<'p> {
    /// The segments of the path, from the root on.
    pub open spec fn path(&self) -> Seq<Seq<char>> {
        strings_view(self.storage@.take(self.len as int))
    }

    /// Whether the stack owns no more than the storage holds.
    pub open spec fn wf(&self) -> bool {
        self.len <= self.storage@.len()
    }

    /// The empty path, on the given storage.
    pub fn new(storage: &'p mut Vec<String>) -> (stack: Self)
        ensures
            stack.wf(),
            stack.len == 0,
            stack.path() == Seq::<Seq<char>>::empty(),
            *stack.storage == *old(storage),
            *final(stack.storage) == *final(storage),
    {
        let stack = StringStack { storage, len: 0 };
        proof {
            assert(stack.path() =~= Seq::<Seq<char>>::empty());
        }
        stack
    }

    /// The segments of the path, from the root on.
    pub fn as_slice(&self) -> (segments: &[String])
        requires
            self.wf(),
        ensures
            strings_view(segments@) == self.path(),
    {
        slice_subrange(self.storage.as_slice(), 0, self.len)
    }

    /// The path with one segment more, on the same storage. This path stays
    /// as it is: when the longer path is done with, the storage begins with
    /// this path's segments as before.
    pub fn push<'s>(&'s mut self, s: &str) -> (child: StringStack<'s>)
        requires
            old(self).wf(),
        ensures
            child.wf(),
            child.len == old(self).len + 1,
            child.path() == old(self).path().push(s@),
            child.storage@.take(old(self).len as int) == old(self).storage@.take(
                old(self).len as int,
            ),
            final(self).len == old(self).len,
            *final(self).storage == *final(child.storage),
            *final(final(self).storage) == *final(old(self).storage),
    {
        self.storage.truncate(self.len);
        self.storage.push(s.to_owned());
        let len = self.storage.len();
        let child = StringStack { storage: &mut *self.storage, len };
        proof {
            assert(child.storage@.take(child.len as int) =~= old(self).storage@.take(
                old(self).len as int,
            ).push(child.storage@[old(self).len as int]));
            assert(child.path() =~= old(self).path().push(s@));
        }
        child
    }
}

} // verus!
