//! Output paths: the segments that lead from the output directory to an entry.

use vstd::prelude::*;

verus! {

/// A path as a sequence of segments. The first segment is the output
/// directory as the caller named it; every further segment is the name of an
/// archive entry.
pub type PathView = Seq<Seq<char>>;

/// A path under which archive entries are written, held segment by segment.
///
/// Segments are joined by the platform's own rules only when an action is
/// performed; here a path is the list of names that were joined.
#[derive(Debug, PartialEq, Eq)]
pub struct OutputPath {
    pub segments: Vec<String>,
}

impl View for OutputPath {
    type V = PathView;

    open spec fn view(&self) -> PathView {
        Seq::new(self.segments.len() as nat, |i: int| self.segments[i]@)
    }
}

impl Clone for OutputPath {
    fn clone(&self) -> (copy: OutputPath)
        ensures
            copy@ == self@,
    {
        let mut segments: Vec<String> = Vec::new();
        let mut i: usize = 0;
        while i < self.segments.len()
            invariant
                i <= self.segments.len(),
                segments.len() == i,
                forall|k: int| 0 <= k < i ==> segments[k]@ == self.segments[k]@,
            decreases self.segments.len() - i,
        {
            segments.push(self.segments[i].clone());
            i += 1;
        }
        OutputPath { segments }
    }
}

impl OutputPath {
    /// The path that consists of the output directory alone.
    pub fn new(base: &str) -> (path: OutputPath)
        ensures
            path@ == seq![base@],
    {
        let mut segments: Vec<String> = Vec::new();
        segments.push(base.to_owned());
        OutputPath { segments }
    }

    /// This path extended by one more segment.
    pub fn join(&self, name: &str) -> (path: OutputPath)
        ensures
            path@ == self@.push(name@),
    {
        let mut path = self.clone();
        path.segments.push(name.to_owned());
        path
    }
}

} // verus!
