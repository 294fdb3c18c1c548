//! Variables and the first-seen registry that assigns column indices.

use vstd::prelude::*;

use crate::TheoryError;

verus! {

/// A variable: an identity plus an inclusive integer bound interval.
#[derive(Clone, Copy, Debug, PartialEq, Eq)]
pub struct Variable {
    pub id: u32,
    pub bounds: (i64, i64),
}

impl Variable {
    /// The bound interval is non-empty.
    pub open spec fn wf(self) -> bool {
        self.bounds.0 <= self.bounds.1
    }

    pub fn new(id: u32, bounds: (i64, i64)) -> (v: Variable)
        ensures
            v == (Variable { id, bounds }),
    {
        Variable { id, bounds }
    }
}

/// A registry of variables in first-seen order; the position of a variable
/// is the column it is addressed by in every derived matrix and objective.
pub struct VarRegistry {
    pub vars: Vec<Variable>,
}

impl VarRegistry {
    /// No two registered variables share an id.
    pub open spec fn wf(self) -> bool {
        forall|i: int, j: int|
            0 <= i < j < self.vars@.len() ==> self.vars@[i].id != self.vars@[j].id
    }

    pub open spec fn contains_id(self, id: u32) -> bool {
        exists|i: int| 0 <= i < self.vars@.len() && self.vars@[i].id == id
    }

    pub fn new() -> (r: VarRegistry)
        ensures
            r.vars@ =~= Seq::<Variable>::empty(),
            r.wf(),
    {
        VarRegistry { vars: Vec::new() }
    }

    /// Registration is idempotent by id: a known id with the same bounds is
    /// accepted and the registry is unchanged; a known id with different
    /// bounds is a conflict; a fresh id is appended.
    pub fn register(&mut self, v: Variable) -> (r: Result<usize, TheoryError>)
        requires
            old(self).wf(),
        ensures
            final(self).wf(),
            old(self).contains_id(v.id) ==> *final(self) == *old(self),
            !old(self).contains_id(v.id) ==> {
                &&& final(self).vars@ =~= old(self).vars@.push(v)
                &&& r == Ok::<usize, TheoryError>((old(self).vars@.len() as usize))
            },
            forall|i: int|
                0 <= i < old(self).vars@.len() && old(self).vars@[i].id == v.id ==> {
                    if old(self).vars@[i].bounds == v.bounds {
                        r == Ok::<usize, TheoryError>(i as usize)
                    } else {
                        r == Err::<usize, TheoryError>(TheoryError::ConflictingBounds)
                    }
                },
    {
        let n = self.vars.len();
        let mut i: usize = 0;
        while i < n
            invariant
                n == self.vars@.len(),
                i <= n,
                self.wf(),
                forall|k: int| 0 <= k < i ==> self.vars@[k].id != v.id,
            decreases n - i,
        {
            if self.vars[i].id == v.id {
                if self.vars[i].bounds.0 == v.bounds.0 && self.vars[i].bounds.1 == v.bounds.1 {
                    return Ok(i);
                } else {
                    return Err(TheoryError::ConflictingBounds);
                }
            }
            i += 1;
        }
        self.vars.push(v);
        Ok(n)
    }

    /// The column assigned to `id`, or `None` when `id` was never registered.
    pub fn column_of(&self, id: u32) -> (r: Option<usize>)
        requires
            self.wf(),
        ensures
            match r {
                Some(c) => c < self.vars@.len() && self.vars@[c as int].id == id,
                None => !self.contains_id(id),
            },
    {
        let n = self.vars.len();
        let mut i: usize = 0;
        while i < n
            invariant
                n == self.vars@.len(),
                i <= n,
                forall|k: int| 0 <= k < i ==> self.vars@[k].id != id,
            decreases n - i,
        {
            if self.vars[i].id == id {
                return Some(i);
            }
            i += 1;
        }
        None
    }
}

} // verus!
