//! The registry of content digests seen so far in one run.

use crate::names::copy_from;
use vstd::prelude::*;

verus! {

/// One digest with the path of the file that was recorded for it.
struct Seen {
    digest: String,
    path: Vec<u8>,
}

/// The digests met so far, each with the path of the file it was recorded
/// for. It lives for one run and is handed along explicitly.
pub struct SeenHashRegistry {
    entries: Vec<Seen>,
}

/// The mapping that a list of records stands for: a later record of a digest
/// replaces an earlier one.
spec fn recorded(entries: Seq<Seen>) -> Map<Seq<char>, Seq<u8>>
    decreases entries.len(),
{
    if entries.len() == 0 {
        Map::empty()
    } else {
        recorded(entries.drop_last()).insert(entries.last().digest@, entries.last().path@)
    }
}

impl View for SeenHashRegistry {
    type V = Map<Seq<char>, Seq<u8>>;

    /// The registry as a mapping from digest to path.
    closed spec fn view(&self) -> Map<Seq<char>, Seq<u8>> {
        recorded(self.entries@)
    }
}

impl SeenHashRegistry {
    /// A registry that has seen nothing.
    pub fn new() -> (registry: Self)
        ensures
            registry@ == Map::<Seq<char>, Seq<u8>>::empty(),
    {
        SeenHashRegistry { entries: Vec::new() }
    }

    /// The path recorded for `digest`, if there is one.
    pub fn get(&self, digest: &String) -> (found: Option<Vec<u8>>)
        ensures
            found is Some == self@.contains_key(digest@),
            found is Some ==> found->0@ == self@[digest@],
    {
        let mut i: usize = self.entries.len();
        assert(self.entries@.take(i as int) =~= self.entries@);
        while i > 0
            invariant
                i <= self.entries.len(),
                self@.contains_key(digest@) == recorded(self.entries@.take(i as int)).contains_key(
                    digest@,
                ),
                self@.contains_key(digest@) ==> self@[digest@] == recorded(
                    self.entries@.take(i as int),
                )[digest@],
            decreases i,
        {
            assert(self.entries@.take(i as int).drop_last() =~= self.entries@.take(i - 1));
            if self.entries[i - 1].digest == *digest {
                let path = copy_from(self.entries[i - 1].path.as_slice(), 0);
                assert(path@ =~= self.entries@[i - 1].path@);
                return Some(path);
            }
            i = i - 1;
        }
        None
    }

    /// Records `path` for `digest`, in place of what was recorded before.
    pub fn insert(&mut self, digest: String, path: Vec<u8>)
        ensures
            final(self)@ == old(self)@.insert(digest@, path@),
    {
        let ghost before = self.entries@;
        self.entries.push(Seen { digest, path });
        assert(self.entries@.drop_last() =~= before);
    }
}

} // verus!
