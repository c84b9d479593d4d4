//! A directory tree as it was read from disk.
//!
//! The walks that find a package's modules decide everything from three facts about a
//! directory: which regular files sit directly in it, which subdirectories it has, and
//! what those hold in turn. Reading them is the caller's part; the walks take the answer
//! as a value and are exact over it.

use vstd::prelude::*;

verus! {

/// One directory: its own name, the regular files directly inside it, and its
/// subdirectories, each in the order the walk should meet them (sorted, when read
/// from disk).
#[derive(Debug)]
pub struct DirListing {
    /// The directory's own name, its last path component.
    pub name: String,
    /// The names of the regular files directly inside it.
    pub files: Vec<String>,
    /// Its subdirectories.
    pub dirs: Vec<DirListing>,
}

/// The text of each name.
pub open spec fn names_of(v: Seq<String>) -> Seq<Seq<char>> {
    v.map_values(|s: String| s@)
}

/// The text of each string slice.
pub open spec fn strs_of(v: Seq<&str>) -> Seq<Seq<char>> {
    v.map_values(|s: &str| s@)
}

impl DirListing {
    /// A directory with the given name and contents.
    pub fn new(name: String, files: Vec<String>, dirs: Vec<DirListing>) -> (r: DirListing)
        ensures
            r.name == name,
            r.files == files,
            r.dirs == dirs,
    {
        DirListing { name, files, dirs }
    }

    /// Whether a regular file of this name sits directly in the directory.
    pub fn has_file(&self, name: &str) -> (r: bool)
        ensures
            r == names_of(self.files@).contains(name@),
    {
        let mut i: usize = 0;
        while i < self.files.len()
            invariant
                i <= self.files@.len(),
                forall|j: int| 0 <= j < i ==> (#[trigger] self.files@[j])@ != name@,
            decreases self.files.len() - i,
        {
            if crate::text::str_eq(self.files[i].as_str(), name) {
                assert(names_of(self.files@)[i as int] == name@);
                return true;
            }
            i = i + 1;
        }
        proof {
            if names_of(self.files@).contains(name@) {
                let k = choose|k: int| 0 <= k < names_of(self.files@).len() && names_of(self.files@)[k] == name@;
                assert(self.files@[k]@ == name@);
            }
        }
        false
    }
}

} // verus!
