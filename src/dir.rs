use vstd::prelude::*;

verus! {

/// A directory entry's name and the size of what it names, in bytes.
#[derive(Debug, PartialEq, PartialOrd, Ord, Eq, Clone)]
pub struct SizeEntry {
    pub name: String,
    pub size: u64,
}

impl SizeEntry {
    pub fn new(name: &str, size: u64) -> (r: Self)
        ensures
            r.name@ == name@,
            r.size == size,
    {
        SizeEntry { name: name.to_owned(), size }
    }
}

} // verus!
