use vstd::prelude::*;

verus! {

/// Outcome of looking a key up among the keys of one node.
#[derive(Debug, Clone, Copy, PartialEq, Eq, Structural)]
pub enum SearchStatus {
    /// The key is stored at this index.
    Found(usize),
    /// The key is absent; this is the index at which it would be inserted,
    /// which is also the index of the child whose range covers it.
    NotFound(usize),
}

impl SearchStatus {
    /// The index carried by either variant.
    pub open spec fn index(self) -> usize {
        match self {
            SearchStatus::Found(i) => i,
            SearchStatus::NotFound(i) => i,
        }
    }

    pub fn is_found(&self) -> (r: bool)
        ensures
            r == (*self is Found),
    {
        match self {
            SearchStatus::Found(_) => true,
            SearchStatus::NotFound(_) => false,
        }
    }

    pub fn unwrap(&self) -> (r: usize)
        ensures
            r == self.index(),
    {
        match self {
            SearchStatus::Found(val) => *val,
            SearchStatus::NotFound(val) => *val,
        }
    }
}

} // verus!
