use crate::trie::{starts_of, Node as Tree};
use vstd::prelude::*;

verus! {

/// The earlier interface of the tree: words are handed over as owned strings, and lookup
/// always harvests every completion.
pub struct Node {
    tree: Tree,
}

impl Node {
    pub closed spec fn wf(&self) -> bool {
        self.tree.wf()
    }

    /// The strings spelled by the vertices.
    pub closed spec fn prefixes(&self) -> Set<Seq<char>> {
        self.tree.prefixes()
    }

    /// The words that the tree holds.
    pub closed spec fn words(&self) -> Set<Seq<char>> {
        self.tree.words()
    }

    /// Whether `q` is a completion of `p`, with no bound on its length.
    pub closed spec fn suggests(&self, p: Seq<char>, q: Seq<char>) -> bool {
        self.tree.suggests(p, None, q)
    }

    /// Makes an empty tree whose root carries the key `c`.
    pub fn new(c: char) -> (r: Node)
        ensures
            r.wf(),
            r.prefixes() == set![Seq::<char>::empty()],
            r.words() == Set::<Seq<char>>::empty(),
    {
        Node { tree: Tree::new(c) }
    }

    /// Adds the word `s`.
    pub fn insert(&mut self, s: String)
        requires
            old(self).wf(),
        ensures
            final(self).wf(),
            final(self).prefixes() == old(self).prefixes() + starts_of(s@),
            final(self).words() == old(self).words().insert(s@),
    {
        self.tree.insert(s.as_str());
    }

    /// Looks up the prefix `s`: whether it is a word, and every completion of it, each once.
    pub fn lookup(&self, s: String) -> (r: (bool, Vec<String>))
        requires
            self.wf(),
        ensures
            r.0 == self.words().contains(s@),
            !self.prefixes().contains(s@) ==> !r.0 && r.1@.len() == 0,
            forall|x: int| 0 <= x < r.1@.len() ==> self.suggests(s@, #[trigger] r.1@[x]@),
            forall|x: int, y: int|
                0 <= x < y < r.1@.len() ==> #[trigger] r.1@[x]@ != #[trigger] r.1@[y]@,
            forall|q: Seq<char>|
                self.suggests(s@, q) ==> exists|x: int| 0 <= x < r.1@.len() && #[trigger] r.1@[x]@ == q,
    {
        self.tree.lookup(s.as_str(), None, None)
    }
}

} // verus!
