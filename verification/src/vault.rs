//! The settings of a vault: where it lies and which files are its notes.
use vstd::prelude::*;
use crate::paths::{extension, extension_of};
use crate::order::texts;

verus! {

/// Where a vault lies and the extensions of its notes.
pub struct VaultConfig {
    pub path: String,
    pub extensions: Vec<String>,
}

impl Default for VaultConfig {
    /// The current folder, with notes ending in `md`.
    fn default() -> (r: Self)
        ensures
            r.path@ == "."@,
            texts(r.extensions@) == seq!["md"@],
    {
        let mut extensions: Vec<String> = Vec::new();
        extensions.push(String::from_str("md"));
        let r = VaultConfig { path: String::from_str("."), extensions };
        assert(texts(r.extensions@) =~= seq!["md"@]);
        r
    }
}

/// The extension of a path, or the empty text when it has none.
pub open spec fn extension_or_empty(path: Seq<char>) -> Seq<char> {
    match extension(path) {
        Some(e) => e,
        None => seq![],
    }
}

impl VaultConfig {
    /// Is the file at `path` a note of the vault: is its extension (the
    /// empty text when it has none) one of the vault's extensions?
    pub fn includes(&self, path: &str) -> (r: bool)
        ensures
            r == texts(self.extensions@).contains(extension_or_empty(path@)),
    {
        let ext = match extension_of(path) {
            Some(e) => e,
            None => String::new(),
        };
        let mut i: usize = 0;
        while i < self.extensions.len()
            invariant
                i <= self.extensions@.len(),
                ext@ == extension_or_empty(path@),
                forall|j: int| 0 <= j < i ==> self.extensions@[j]@ != ext@,
            decreases self.extensions@.len() - i,
        {
            if self.extensions[i] == ext {
                assert(texts(self.extensions@)[i as int] == ext@);
                return true;
            }
            i = i + 1;
        }
        proof {
            if texts(self.extensions@).contains(ext@) {
                let j = choose|j: int| 0 <= j < texts(self.extensions@).len() && texts(self.extensions@)[j] == ext@;
                assert(self.extensions@[j]@ == ext@);
            }
        }
        false
    }
}

} // verus!
