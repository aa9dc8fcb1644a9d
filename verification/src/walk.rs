//! Walking a directory tree without touching the disk: the walk says which
//! directory to read next, the caller reads it and reports what it holds.

use vstd::prelude::*;
use crate::paths::texts;

verus! {

/// The state of a walk: directories still to read, and the files found so far.
#[derive(Debug)]
pub struct TreeWalk {
    pending: Vec<String>,
    files: Vec<String>,
}

impl TreeWalk {
    /// The directories still to read; the last one is read next.
    pub closed spec fn pending(&self) -> Seq<Seq<char>> {
        texts(self.pending@)
    }

    /// The files found so far, in the order in which they were reported.
    pub closed spec fn files(&self) -> Seq<Seq<char>> {
        texts(self.files@)
    }

    /// A walk that has `root` to read and has found nothing yet.
    pub fn start(root: &str) -> (walk: TreeWalk)
        ensures
            walk.pending() == seq![root@],
            walk.files() == Seq::<Seq<char>>::empty(),
    {
        let mut pending: Vec<String> = Vec::new();
        pending.push(String::from_str(root));
        let walk = TreeWalk { pending, files: Vec::new() };
        proof {
            assert(walk.pending() =~= seq![root@]);
            assert(walk.files() =~= Seq::<Seq<char>>::empty());
        }
        walk
    }

    /// The directory to read next, or `None` when the walk is over.
    pub fn next_dir(&mut self) -> (dir: Option<String>)
        ensures
            final(self).files() == old(self).files(),
            match dir {
                Some(d) => old(self).pending().len() > 0 && d@ == old(self).pending().last()
                    && final(self).pending() == old(self).pending().drop_last(),
                None => old(self).pending().len() == 0 && final(self).pending() == old(self).pending(),
            },
    {
        let ghost before = self.pending();
        let dir = self.pending.pop();
        proof {
            if dir is Some {
                assert(self.pending() =~= before.drop_last());
            }
        }
        dir
    }

    /// Reports one entry of the directory that was read: a directory is read
    /// later, anything else counts as a file.
    pub fn found(&mut self, path: String, is_dir: bool)
        ensures
            is_dir ==> final(self).pending() == old(self).pending().push(path@) && final(self).files() == old(self).files(),
            !is_dir ==> final(self).files() == old(self).files().push(path@) && final(self).pending() == old(self).pending(),
    {
        let ghost pending = self.pending();
        let ghost files = self.files();
        if is_dir {
            self.pending.push(path);
            proof {
                assert(self.pending() =~= pending.push(path@));
            }
        } else {
            self.files.push(path);
            proof {
                assert(self.files() =~= files.push(path@));
            }
        }
    }

    /// Ends the walk and hands out the files found.
    pub fn into_files(self) -> (out: Vec<String>)
        ensures
            texts(out@) == self.files(),
    {
        self.files
    }
}

} // verus!
