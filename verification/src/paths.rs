//! File-system locations, held as their components. The library only
//! says where a file lives; the application joins the components into
//! a platform path, in order, when it touches the disk.

use vstd::prelude::*;
use crate::text::str_eq;

verus! {

/// A path: its components, outermost first.
#[derive(Debug, Clone)]
pub struct FilePath {
    parts: Vec<String>,
}

/// The texts of a list of strings.
pub open spec fn texts(v: Seq<String>) -> Seq<Seq<char>> {
    v.map_values(|s: String| s@)
}

impl View for FilePath {
    type V = Seq<Seq<char>>;

    /// The components.
    closed spec fn view(&self) -> Seq<Seq<char>> {
        texts(self.parts@)
    }
}

impl FilePath {
    /// The path made of these components.
    pub fn from_parts(parts: Vec<String>) -> (p: FilePath)
        ensures
            p@ == texts(parts@),
    {
        FilePath { parts }
    }

    /// The components, outermost first.
    pub fn parts(&self) -> (r: &Vec<String>)
        ensures
            texts(r@) == self@,
    {
        &self.parts
    }

    /// Whether the last component is `name`.
    pub fn ends_with(&self, name: &str) -> (b: bool)
        ensures
            b == (self@.len() > 0 && self@.last() == name@),
    {
        let n = self.parts.len();
        if n == 0 {
            return false;
        }
        let last = &self.parts[n - 1];
        proof {
            assert(self@.last() == last@);
        }
        str_eq(last.as_str(), name)
    }
}

} // verus!
