//! The history of one key within one scope, and how two histories combine.
use crate::bytes::{same_value, val_view, CacheValue};
use vstd::prelude::*;

verus! {

/// `Access` represents a sequence of events on a particular value within one scope.
#[derive(PartialEq, Eq, Debug)]
pub enum Access {
    /// The key was observed with this value and never written.
    Read(Option<CacheValue>),
    /// The key was first observed as `original`, then written to `modified`.
    ReadThenWrite { original: Option<CacheValue>, modified: Option<CacheValue> },
    /// The key was written without being observed first.
    Write(Option<CacheValue>),
}

/// An error raised when the later of two histories of a key cannot follow the earlier one.
#[derive(PartialEq, Eq, Debug)]
pub enum MergeError {
    /// The earlier scope read `left`, the later one first observed `right`.
    ReadThenRead { left: Option<CacheValue>, right: Option<CacheValue> },
    /// The earlier scope last wrote `write`, the later one first observed `read`.
    WriteThenRead { write: Option<CacheValue>, read: Option<CacheValue> },
}

/// The mathematical content of an [`Access`]: the same variants over plain bytes.
pub enum AccessView {
    Read(Option<Seq<u8>>),
    ReadThenWrite { original: Option<Seq<u8>>, modified: Option<Seq<u8>> },
    Write(Option<Seq<u8>>),
}

/// The mathematical content of a [`MergeError`].
pub enum MergeErrorView {
    ReadThenRead { left: Option<Seq<u8>>, right: Option<Seq<u8>> },
    WriteThenRead { write: Option<Seq<u8>>, read: Option<Seq<u8>> },
}

impl AccessView {
    /// The value a later read of the key in the same scope must observe.
    pub open spec fn last(self) -> Option<Seq<u8>> {
        match self {
            AccessView::Read(v) => v,
            AccessView::ReadThenWrite { modified, .. } => modified,
            AccessView::Write(v) => v,
        }
    }

    /// The value the key held before the scope first touched it, if the scope read it first.
    pub open spec fn first_read(self) -> Option<Option<Seq<u8>>> {
        match self {
            AccessView::Read(v) => Some(v),
            AccessView::ReadThenWrite { original, .. } => Some(original),
            AccessView::Write(_) => None,
        }
    }

    /// The value the scope leaves behind, if it wrote the key.
    pub open spec fn written(self) -> Option<Option<Seq<u8>>> {
        match self {
            AccessView::Read(_) => None,
            AccessView::ReadThenWrite { modified, .. } => Some(modified),
            AccessView::Write(v) => Some(v),
        }
    }

    /// The history after one more write of `new`.
    pub open spec fn after_write(self, new: Option<Seq<u8>>) -> AccessView {
        match self {
            AccessView::Read(original) => if original == new {
                AccessView::Read(original)
            } else {
                AccessView::ReadThenWrite { original, modified: new }
            },
            AccessView::ReadThenWrite { original, modified } => if original == new {
                AccessView::Read(new)
            } else {
                AccessView::ReadThenWrite { original, modified: new }
            },
            AccessView::Write(_) => AccessView::Write(new),
        }
    }

    /// This history followed by the history `rhs` of a later scope.
    pub open spec fn merge_with(self, rhs: AccessView) -> Result<AccessView, MergeErrorView> {
        match self {
            AccessView::Read(left) => match rhs {
                AccessView::Read(right) => if left == right {
                    Ok(AccessView::Read(left))
                } else {
                    Err(MergeErrorView::ReadThenRead { left, right })
                },
                AccessView::ReadThenWrite { original, modified } => if left == original {
                    Ok(AccessView::ReadThenWrite { original, modified })
                } else {
                    Err(MergeErrorView::ReadThenRead { left, right: original })
                },
                AccessView::Write(w) => Ok(AccessView::ReadThenWrite { original: left, modified: w }),
            },
            AccessView::ReadThenWrite { original, modified } => match rhs {
                AccessView::Read(right) => if modified == right {
                    Ok(self)
                } else {
                    Err(MergeErrorView::WriteThenRead { write: modified, read: right })
                },
                AccessView::ReadThenWrite { original: r_original, modified: r_modified } => if modified
                    == r_original {
                    Ok(AccessView::ReadThenWrite { original, modified: r_modified })
                } else {
                    Err(MergeErrorView::WriteThenRead { write: modified, read: r_original })
                },
                AccessView::Write(w) => Ok(AccessView::ReadThenWrite { original, modified: w }),
            },
            AccessView::Write(left) => match rhs {
                AccessView::Read(right) => if left == right {
                    Ok(AccessView::Read(right))
                } else {
                    Err(MergeErrorView::WriteThenRead { write: left, read: right })
                },
                AccessView::ReadThenWrite { original, modified } => if left == original {
                    Ok(AccessView::Write(modified))
                } else {
                    Err(MergeErrorView::WriteThenRead { write: left, read: original })
                },
                AccessView::Write(w) => Ok(AccessView::Write(w)),
            },
        }
    }
}

impl View for Access {
    type V = AccessView;

    open spec fn view(&self) -> AccessView {
        match self {
            Access::Read(v) => AccessView::Read(val_view(*v)),
            Access::ReadThenWrite { original, modified } => AccessView::ReadThenWrite {
                original: val_view(*original),
                modified: val_view(*modified),
            },
            Access::Write(v) => AccessView::Write(val_view(*v)),
        }
    }
}

impl View for MergeError {
    type V = MergeErrorView;

    open spec fn view(&self) -> MergeErrorView {
        match self {
            MergeError::ReadThenRead { left, right } => MergeErrorView::ReadThenRead {
                left: val_view(*left),
                right: val_view(*right),
            },
            MergeError::WriteThenRead { write, read } => MergeErrorView::WriteThenRead {
                write: val_view(*write),
                read: val_view(*read),
            },
        }
    }
}

impl Clone for Access {
    fn clone(&self) -> (r: Self)
        ensures
            r == *self,
    {
        match self {
            Access::Read(v) => Access::Read(v.clone()),
            Access::ReadThenWrite { original, modified } => Access::ReadThenWrite {
                original: original.clone(),
                modified: modified.clone(),
            },
            Access::Write(v) => Access::Write(v.clone()),
        }
    }
}

impl Access {
    /// The value a later read of this key within the same scope must observe.
    pub fn last_value(&self) -> (r: &Option<CacheValue>)
        ensures
            val_view(*r) == self@.last(),
    {
        match self {
            Access::Read(value) => value,
            Access::ReadThenWrite { modified, .. } => modified,
            Access::Write(value) => value,
        }
    }

    /// Records a write of `new_value`; writing back the value first read
    /// discards the write history.
    pub fn write_value(&mut self, new_value: Option<CacheValue>)
        ensures
            final(self)@ == old(self)@.after_write(val_view(new_value)),
    {
        let next = match &*self {
            Access::Read(original) => {
                if same_value(original, &new_value) {
                    return ;
                }
                Access::ReadThenWrite { original: original.clone(), modified: new_value }
            },
            Access::ReadThenWrite { original, .. } => {
                if same_value(original, &new_value) {
                    Access::Read(new_value)
                } else {
                    Access::ReadThenWrite { original: original.clone(), modified: new_value }
                }
            },
            Access::Write(_) => Access::Write(new_value),
        };
        *self = next;
    }

    /// The history that this one followed by `rhs` amounts to, or the conflict between them.
    pub(crate) fn merged_with(&self, rhs: Access) -> (r: Result<Access, MergeError>)
        ensures
            match self@.merge_with(rhs@) {
                Ok(a) => r matches Ok(x) && x@ == a,
                Err(e) => r matches Err(x) && x@ == e,
            },
    {
        match self {
            Access::Read(left) => match rhs {
                Access::Read(right) => {
                    if same_value(left, &right) {
                        Ok(Access::Read(right))
                    } else {
                        Err(MergeError::ReadThenRead { left: left.clone(), right })
                    }
                },
                Access::ReadThenWrite { original, modified } => {
                    if same_value(left, &original) {
                        Ok(Access::ReadThenWrite { original, modified })
                    } else {
                        Err(MergeError::ReadThenRead { left: left.clone(), right: original })
                    }
                },
                Access::Write(w) => Ok(Access::ReadThenWrite { original: left.clone(), modified: w }),
            },
            Access::ReadThenWrite { original, modified } => match rhs {
                Access::Read(right) => {
                    if same_value(modified, &right) {
                        Ok(self.clone())
                    } else {
                        Err(MergeError::WriteThenRead { write: modified.clone(), read: right })
                    }
                },
                Access::ReadThenWrite { original: r_original, modified: r_modified } => {
                    if same_value(modified, &r_original) {
                        Ok(Access::ReadThenWrite { original: original.clone(), modified: r_modified })
                    } else {
                        Err(MergeError::WriteThenRead { write: modified.clone(), read: r_original })
                    }
                },
                Access::Write(w) => Ok(Access::ReadThenWrite { original: original.clone(), modified: w }),
            },
            Access::Write(left) => match rhs {
                Access::Read(right) => {
                    if same_value(left, &right) {
                        Ok(Access::Read(right))
                    } else {
                        Err(MergeError::WriteThenRead { write: left.clone(), read: right })
                    }
                },
                Access::ReadThenWrite { original, modified } => {
                    if same_value(left, &original) {
                        Ok(Access::Write(modified))
                    } else {
                        Err(MergeError::WriteThenRead { write: left.clone(), read: original })
                    }
                },
                Access::Write(w) => Ok(Access::Write(w)),
            },
        }
    }

    /// Combines this scope's history of a key with the history `rhs` of a later scope.
    /// On a conflict `self` is left as it was.
    pub fn merge(&mut self, rhs: Self) -> (r: Result<(), MergeError>)
        ensures
            match old(self)@.merge_with(rhs@) {
                Ok(a) => r is Ok && final(self)@ == a,
                Err(e) => r matches Err(x) && x@ == e && final(self)@ == old(self)@,
            },
    {
        match self.merged_with(rhs) {
            Ok(a) => {
                *self = a;
                Ok(())
            },
            Err(e) => Err(e),
        }
    }
}

} // verus!
