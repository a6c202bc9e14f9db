use crate::children::{add_child, child_of, empty_children};
use crate::recycle::BufferPool;
use crate::text::{code_points, string_of};
use fnv::FnvHashMap;
use vstd::prelude::*;

verus! {

/// One vertex of the tree: its children by key, the same keys in the order in which they
/// were added, and whether a word ends here.
pub struct Vertex {
    children: FnvHashMap<char, usize>,
    keys: Vec<char>,
    is_terminal: bool,
}

/// A prefix tree of words over code points. Vertices live in one vector and refer to
/// their children by index; the root is vertex 0 and carries the key `val`, which is never
/// matched against input.
pub struct Node {
    val: char,
    vertices: Vec<Vertex>,
    /// The string spelled by the path from the root to each vertex.
    paths: Ghost<Seq<Seq<char>>>,
    /// The index of each vertex's parent (the root's entry is unused).
    parents: Ghost<Seq<int>>,
}

impl Vertex {
    /// The key list holds each key of the child map once, and nothing else.
    pub closed spec fn keys_match(&self) -> bool {
        &&& self.keys@.no_duplicates()
        &&& forall|k: char| self.children@.contains_key(k) <==> self.keys@.contains(k)
    }
}

/// Whether `p` is the start of `q`.
pub open spec fn starts(p: Seq<char>, q: Seq<char>) -> bool {
    p.len() <= q.len() && q.subrange(0, p.len() as int) == p
}

/// Every start of `w`, from the empty string to `w` itself.
pub open spec fn starts_of(w: Seq<char>) -> Set<Seq<char>> {
    Set::new(|q: Seq<char>| starts(q, w))
}

/// The starts of the first `t + 1` keys of `w` are those of the first `t` keys, and one more.
proof fn lemma_starts_of_step(w: Seq<char>, t: int)
    requires
        0 <= t < w.len(),
    ensures
        starts_of(w.subrange(0, t + 1)) == starts_of(w.subrange(0, t)).insert(w.subrange(0, t + 1)),
{
    let a = starts_of(w.subrange(0, t + 1));
    let b = starts_of(w.subrange(0, t)).insert(w.subrange(0, t + 1));
    assert forall|q: Seq<char>| a.contains(q) implies b.contains(q) by {
        assert(starts(q, w.subrange(0, t + 1)));
        assert(w.subrange(0, t + 1).subrange(0, q.len() as int) =~= w.subrange(0, q.len() as int));
        if q.len() <= t {
            assert(w.subrange(0, t).subrange(0, q.len() as int) =~= w.subrange(0, q.len() as int));
            assert(starts(q, w.subrange(0, t)));
        } else {
            assert(q =~= w.subrange(0, t + 1));
        }
    }
    assert forall|q: Seq<char>| b.contains(q) implies a.contains(q) by {
        if q != w.subrange(0, t + 1) {
            assert(starts(q, w.subrange(0, t)));
            assert(w.subrange(0, t).subrange(0, q.len() as int) =~= w.subrange(0, q.len() as int));
            assert(w.subrange(0, t + 1).subrange(0, q.len() as int) =~= w.subrange(0, q.len() as int));
        } else {
            assert(w.subrange(0, t + 1).subrange(0, q.len() as int) =~= q);
        }
    }
    assert(a =~= b);
}

/// Whether a string of length `len` stays within the bound `depth`, if there is one.
pub open spec fn within(depth: Option<usize>, len: int) -> bool {
    match depth {
        None => true,
        Some(d) => len <= d,
    }
}

/// Whether `n` results are still fewer than the bound `limit`, if there is one.
pub open spec fn under(limit: Option<usize>, n: int) -> bool {
    match limit {
        None => true,
        Some(l) => n < l,
    }
}

/// `a` begins with `b`, so they agree at each index of `b`.
proof fn lemma_kept(a: Seq<String>, b: Seq<String>, x: int)
    requires
        b.len() <= a.len(),
        a.subrange(0, b.len() as int) == b,
        0 <= x < b.len(),
    ensures
        a[x] == b[x],
{
    assert(a.subrange(0, b.len() as int)[x] == a[x]);
}

impl Node {
    /// Whether no vertex's string extends `q` by one key.
    pub open spec fn is_leaf(&self, q: Seq<char>) -> bool {
        forall|k: char| !#[trigger] self.prefixes().contains(q.push(k))
    }

    /// Whether `q` is a completion of the prefix `p` under the length bound `depth`: a
    /// vertex's string that starts with `p`, is `p` itself or no longer than `depth`, and
    /// is a word or a leaf.
    pub open spec fn suggests(&self, p: Seq<char>, depth: Option<usize>, q: Seq<char>) -> bool {
        &&& self.prefixes().contains(q)
        &&& starts(p, q)
        &&& q.len() == p.len() || within(depth, q.len() as int)
        &&& self.words().contains(q) || self.is_leaf(q)
    }

    /// The key that the root carries.
    pub closed spec fn key(&self) -> char {
        self.val
    }

    pub closed spec fn child(&self, i: int, k: char) -> int {
        self.vertices@[i].children@[k] as int
    }

    pub closed spec fn has_child(&self, i: int, k: char) -> bool {
        self.vertices@[i].children@.contains_key(k)
    }

    /// The arena is a tree: child indices grow away from the root, each child spells its
    /// parent's string and its key, no two vertices spell the same string, each vertex
    /// but the root has a parent, and a vertex whose string extends another's by one key
    /// is that vertex's child.
    pub closed spec fn wf(&self) -> bool {
        let n = self.vertices@.len();
        let paths = self.paths@;
        &&& n >= 1
        &&& paths.len() == n
        &&& self.parents@.len() == n
        &&& paths[0] == Seq::<char>::empty()
        &&& forall|i: int| 0 <= i < n ==> (#[trigger] self.vertices@[i]).keys_match()
        &&& forall|i: int, k: char|
            0 <= i < n && #[trigger] self.has_child(i, k) ==> i < self.child(i, k) < n
                && paths[self.child(i, k)] == paths[i].push(k)
        &&& forall|i: int, j: int| 0 <= i < n && 0 <= j < n && i != j ==> paths[i] != paths[j]
        &&& forall|j: int|
            0 < j < n ==> 0 <= #[trigger] self.parents@[j] < j && paths[j].len() > 0
                && paths[self.parents@[j]] == paths[j].drop_last()
        &&& forall|i: int, j: int|
            0 <= i < n && 0 <= j < n && paths[j].len() == paths[i].len() + 1 && starts(
                paths[i],
                paths[j],
            ) ==> #[trigger] self.has_child(i, paths[j].last()) && #[trigger] paths[j]
                == paths[i].push(paths[j].last())
    }

    /// The strings spelled by the vertices.
    pub closed spec fn prefixes(&self) -> Set<Seq<char>> {
        Set::new(|q: Seq<char>| exists|i: int| 0 <= i < self.paths@.len() && self.paths@[i] == q)
    }

    /// The words that the tree holds.
    pub closed spec fn words(&self) -> Set<Seq<char>> {
        Set::new(
            |q: Seq<char>|
                exists|i: int|
                    0 <= i < self.paths@.len() && self.paths@[i] == q
                        && self.vertices@[i].is_terminal,
        )
    }

    /// Makes an empty tree whose root carries the key `c`.
    pub fn new(c: char) -> (r: Node)
        ensures
            r.wf(),
            r.key() == c,
            r.prefixes() == set![Seq::<char>::empty()],
            r.words() == Set::<Seq<char>>::empty(),
    {
        let root = Vertex { children: empty_children(), keys: Vec::new(), is_terminal: false };
        let mut vertices: Vec<Vertex> = Vec::new();
        vertices.push(root);
        let ghost paths = seq![Seq::<char>::empty()];
        let ghost parents = seq![0int];
        let r = Node { val: c, vertices, paths: Ghost(paths), parents: Ghost(parents) };
        assert(r.paths@[0] == Seq::<char>::empty());
        assert(r.prefixes() =~= set![Seq::<char>::empty()]);
        assert(r.words() =~= Set::<Seq<char>>::empty());
        r
    }

    /// Adds the word `s`: every start of `s` now has a vertex, and `s` is a word.
    pub fn insert(&mut self, s: &str)
        requires
            old(self).wf(),
        ensures
            final(self).wf(),
            final(self).prefixes() == old(self).prefixes() + starts_of(s@),
            final(self).words() == old(self).words().insert(s@),
    {
        let w = code_points(s);
        self.insert_chars(&w, None);
    }

    /// Adds the word `s` as `insert` does, taking the key buffers of new vertices from
    /// `pool`. Each buffer is emptied before use, so the tree comes out the same.
    pub fn insert_bypool(&mut self, s: &str, pool: &mut BufferPool)
        requires
            old(self).wf(),
        ensures
            final(self).wf(),
            final(self).prefixes() == old(self).prefixes() + starts_of(s@),
            final(self).words() == old(self).words().insert(s@),
    {
        let w = code_points(s);
        self.insert_chars(&w, Some(&*pool));
    }

    /// Looks up the prefix `s`. The first part of the result tells whether `s` is a word;
    /// the second lists, without repeats, completions of `s` (see `suggests`), no longer
    /// than `length` unless equal to `s`, and stops at `limit` of them. When it holds fewer
    /// than `limit`, it holds them all. When no vertex spells `s`, it is empty.
    pub fn lookup(&self, s: &str, length: Option<usize>, limit: Option<usize>) -> (r: (
        bool,
        Vec<String>,
    ))
        requires
            self.wf(),
        ensures
            r.0 == self.words().contains(s@),
            !self.prefixes().contains(s@) ==> !r.0 && r.1@.len() == 0,
            forall|x: int| 0 <= x < r.1@.len() ==> self.suggests(s@, length, #[trigger] r.1@[x]@),
            forall|x: int, y: int|
                0 <= x < y < r.1@.len() ==> #[trigger] r.1@[x]@ != #[trigger] r.1@[y]@,
            limit is Some ==> r.1@.len() <= limit->0,
            under(limit, r.1@.len() as int) ==> forall|q: Seq<char>|
                self.suggests(s@, length, q) ==> exists|x: int|
                    0 <= x < r.1@.len() && #[trigger] r.1@[x]@ == q,
    {
        let w = code_points(s);
        let mut suggestions: Vec<String> = Vec::new();
        let mut cur: usize = 0;
        let mut t: usize = 0;
        assert(w@.subrange(0, 0) =~= self.paths@[0]);
        while t < w.len()
            invariant
                self.wf(),
                0 <= cur < self.vertices.len(),
                t <= w.len(),
                w@ == s@,
                self.paths@[cur as int] == w@.subrange(0, t as int),
                suggestions@.len() == 0,
            decreases w.len() - t,
        {
            match child_of(&self.vertices[cur].children, w[t]) {
                Some(j) => {
                    assert(self.has_child(cur as int, w@[t as int]));
                    assert(self.paths@[j as int] =~= w@.subrange(0, t + 1));
                    cur = j;
                },
                None => {
                    proof {
                        self.lemma_absent(cur as int, w@, t as int);
                    }
                    return (false, suggestions);
                },
            }
            t = t + 1;
        }
        assert(w@.subrange(0, t as int) =~= w@);
        let contains = self.vertices[cur].is_terminal;
        proof {
            assert(self.prefixes().contains(w@));
            if self.words().contains(w@) {
                let j = choose|j: int| 0 <= j < self.paths@.len() && self.paths@[j] == w@ && self.vertices@[j].is_terminal;
                assert(j == cur);
            }
            assert(w@.subrange(0, w@.len() as int) =~= w@);
        }
        let mut path = w;
        self.harvest(cur, &mut path, Ghost(s@), length, limit, &mut suggestions);
        proof {
            assert forall|q: Seq<char>| self.suggests(s@, length, q) implies starts(self.paths@[cur as int], q) by {}
        }
        (contains, suggestions)
    }

    /// Adds the word `w`, taking the key buffers of new vertices from `pool` where one is
    /// given.
    fn insert_chars(&mut self, w: &Vec<char>, pool: Option<&BufferPool>)
        requires
            old(self).wf(),
        ensures
            final(self).wf(),
            final(self).prefixes() == old(self).prefixes() + starts_of(w@),
            final(self).words() == old(self).words().insert(w@),
    {
        let mut cur: usize = 0;
        let mut t: usize = 0;
        assert forall|q: Seq<char>| starts_of(w@.subrange(0, 0)).contains(q) implies q == Seq::<char>::empty() by {
            assert(q =~= Seq::<char>::empty());
        }
        assert(w@.subrange(0, 0).subrange(0, 0) =~= Seq::<char>::empty());
        assert(starts_of(w@.subrange(0, 0)) =~= set![Seq::<char>::empty()]);
        assert(self.prefixes().contains(self.paths@[0]));
        assert(self.prefixes().contains(Seq::<char>::empty()));
        assert(self.prefixes() + starts_of(w@.subrange(0, 0)) =~= self.prefixes());
        while t < w.len()
            invariant
                self.wf(),
                0 <= cur < self.vertices.len(),
                t <= w.len(),
                self.paths@[cur as int] == w@.subrange(0, t as int),
                self.prefixes() == old(self).prefixes() + starts_of(w@.subrange(0, t as int)),
                self.words() == old(self).words(),
            decreases w.len() - t,
        {
            let k = w[t];
            proof {
                lemma_starts_of_step(w@, t as int);
            }
            match child_of(&self.vertices[cur].children, k) {
                Some(j) => {
                    assert(self.has_child(cur as int, k));
                    assert(self.paths@[j as int] =~= w@.subrange(0, t + 1));
                    assert(self.prefixes().contains(self.paths@[j as int]));
                    assert(self.prefixes() + starts_of(w@.subrange(0, t + 1)) =~= self.prefixes()
                        + starts_of(w@.subrange(0, t as int)));
                    cur = j;
                },
                None => {
                    self.add_vertex(cur, k, pool);
                    assert(self.paths@[self.vertices.len() - 1] =~= w@.subrange(0, t + 1));
                    assert(self.prefixes() + starts_of(w@.subrange(0, t + 1)) =~= old(
                        self,
                    ).prefixes() + starts_of(w@.subrange(0, t + 1)));
                    cur = self.vertices.len() - 1;
                },
            }
            t = t + 1;
        }
        assert(w@.subrange(0, t as int) =~= w@);
        self.mark_terminal(cur);
    }

    /// Gives vertex `cur` a new child under the key `k`, which it does not have yet.
    fn add_vertex(&mut self, cur: usize, k: char, pool: Option<&BufferPool>)
        requires
            old(self).wf(),
            0 <= cur < old(self).vertices.len(),
            !old(self).has_child(cur as int, k),
        ensures
            final(self).wf(),
            final(self).vertices.len() == old(self).vertices.len() + 1,
            final(self).paths@ == old(self).paths@.push(old(self).paths@[cur as int].push(k)),
            final(self).prefixes() == old(self).prefixes().insert(old(self).paths@[cur as int].push(k)),
            final(self).words() == old(self).words(),
    {
        let mut keys = match pool {
            Some(p) => p.take_buffer(),
            None => Vec::new(),
        };
        keys.clear();
        let j = self.vertices.len();
        self.vertices.push(Vertex { children: empty_children(), keys, is_terminal: false });
        add_child(&mut self.vertices[cur].children, k, j);
        self.vertices[cur].keys.push(k);
        let ghost np = self.paths@[cur as int].push(k);
        self.paths = Ghost(self.paths@.push(np));
        self.parents = Ghost(self.parents@.push(cur as int));
        proof {
            let n = j as int;
            let o = old(self);
            assert(self.vertices@[n].keys@ =~= Seq::<char>::empty());
            assert forall|i: int| 0 <= i < n && i != cur implies self.vertices@[i] == o.vertices@[i] by {}
            assert forall|i: int, k2: char| 0 <= i < n && i != cur implies (self.has_child(i, k2) == o.has_child(i, k2)) && self.child(i, k2) == o.child(i, k2) by {}
            assert forall|k2: char| k2 != k implies (self.has_child(cur as int, k2) == o.has_child(cur as int, k2)) && self.child(cur as int, k2) == o.child(cur as int, k2) by {}
            assert forall|k2: char| !self.has_child(n, k2) by {}
            // no existing vertex spells the new path
            assert forall|m: int| 0 <= m < n implies o.paths@[m] != np by {
                if o.paths@[m] == np {
                    assert(starts(o.paths@[cur as int], o.paths@[m])) by {
                        assert(o.paths@[m].subrange(0, o.paths@[cur as int].len() as int) =~= o.paths@[cur as int]);
                    }
                    assert(np.last() == k);
                    assert(o.has_child(cur as int, o.paths@[m].last()));
                }
            }
            assert forall|i: int| 0 <= i <= n implies (#[trigger] self.vertices@[i]).keys_match() by {
                if i == cur {
                    assert(self.vertices@[i].keys@ =~= o.vertices@[i].keys@.push(k));
                    assert(!o.vertices@[i].keys@.contains(k));
                    let ok = o.vertices@[i].keys@;
                    let nk = self.vertices@[i].keys@;
                    assert(nk[nk.len() - 1] == k);
                    assert forall|k2: char| self.vertices@[i].children@.contains_key(k2) <==> nk.contains(k2) by {
                        if k2 != k && ok.contains(k2) {
                            let x = ok.index_of(k2);
                            assert(nk[x] == k2);
                        }
                        if k2 != k && nk.contains(k2) {
                            let x = nk.index_of(k2);
                            assert(ok[x] == k2);
                        }
                    }
                    assert forall|x: int, y: int| 0 <= x < nk.len() && 0 <= y < nk.len() && x != y implies nk[x] != nk[y] by {
                        if x == nk.len() - 1 {
                            assert(ok[y] == nk[y]);
                        } else if y == nk.len() - 1 {
                            assert(ok[x] == nk[x]);
                        }
                    }
                }
            }
            assert forall|i: int, k2: char| 0 <= i <= n && #[trigger] self.has_child(i, k2) implies i < self.child(i, k2) <= n && self.paths@[self.child(i, k2)] == self.paths@[i].push(k2) by {
                if i != cur && i != n {
                    assert(o.has_child(i, k2));
                }
                if i == cur && k2 != k {
                    assert(o.has_child(i, k2));
                }
            }
            assert forall|a: int, b: int| 0 <= a <= n && 0 <= b <= n && a != b implies self.paths@[a] != self.paths@[b] by {
                if a == n {
                    assert(o.paths@[b] != np);
                }
                if b == n {
                    assert(o.paths@[a] != np);
                }
            }
            assert forall|m: int| 0 < m <= n implies 0 <= #[trigger] self.parents@[m] < m && self.paths@[m].len() > 0 && self.paths@[self.parents@[m]] == self.paths@[m].drop_last() by {
                if m == n {
                    assert(np.drop_last() =~= o.paths@[cur as int]);
                }
            }
            assert forall|a: int, b: int|
                0 <= a <= n && 0 <= b <= n && self.paths@[b].len() == self.paths@[a].len() + 1 && starts(self.paths@[a], self.paths@[b])
                implies #[trigger] self.has_child(a, self.paths@[b].last()) && #[trigger] self.paths@[b] == self.paths@[a].push(self.paths@[b].last()) by {
                assert(self.paths@[b] =~= self.paths@[a].push(self.paths@[b].last()));
                if b == n {
                    if a != cur {
                        assert(np.drop_last() =~= o.paths@[cur as int]);
                        assert(self.paths@[a] =~= np.drop_last());
                    }
                } else if a == n {
                    let pb = o.parents@[b];
                    assert(o.paths@[pb] =~= o.paths@[b].drop_last());
                    assert(o.paths@[b].drop_last() =~= np);
                } else {
                    assert(o.has_child(a, self.paths@[b].last()));
                }
            }
            assert forall|q: Seq<char>| self.prefixes().contains(q) <==> o.prefixes().insert(np).contains(q) by {
                if q == np {
                    assert(self.paths@[n] == q);
                } else if self.prefixes().contains(q) {
                    let i = choose|i: int| 0 <= i < self.paths@.len() && self.paths@[i] == q;
                    assert(o.paths@[i] == q);
                } else if o.prefixes().contains(q) {
                    let i = choose|i: int| 0 <= i < o.paths@.len() && o.paths@[i] == q;
                    assert(self.paths@[i] == q);
                }
            }
            assert(self.prefixes() =~= o.prefixes().insert(np));
            assert forall|q: Seq<char>| self.words().contains(q) <==> o.words().contains(q) by {
                if self.words().contains(q) {
                    let i = choose|i: int| 0 <= i < self.paths@.len() && self.paths@[i] == q && self.vertices@[i].is_terminal;
                    assert(o.paths@[i] == q && o.vertices@[i].is_terminal);
                } else if o.words().contains(q) {
                    let i = choose|i: int| 0 <= i < o.paths@.len() && o.paths@[i] == q && o.vertices@[i].is_terminal;
                    assert(self.paths@[i] == q && self.vertices@[i].is_terminal);
                }
            }
            assert(self.words() =~= o.words());
        }
    }

    /// Marks vertex `cur` as the end of a word.
    fn mark_terminal(&mut self, cur: usize)
        requires
            old(self).wf(),
            0 <= cur < old(self).vertices.len(),
        ensures
            final(self).wf(),
            final(self).prefixes() == old(self).prefixes(),
            final(self).words() == old(self).words().insert(old(self).paths@[cur as int]),
    {
        self.vertices[cur].is_terminal = true;
        proof {
            let o = old(self);
            let n = self.vertices@.len();
            assert forall|i: int| 0 <= i < n implies self.vertices@[i].children == o.vertices@[i].children && self.vertices@[i].keys == o.vertices@[i].keys by {}
            assert forall|i: int, k2: char| 0 <= i < n implies (self.has_child(i, k2) == o.has_child(i, k2)) && self.child(i, k2) == o.child(i, k2) by {}
            assert(self.prefixes() =~= o.prefixes());
            assert forall|q: Seq<char>| self.words().contains(q) <==> o.words().insert(o.paths@[cur as int]).contains(q) by {
                if q == o.paths@[cur as int] {
                    assert(self.vertices@[cur as int].is_terminal);
                } else if self.words().contains(q) {
                    let i = choose|i: int| 0 <= i < self.paths@.len() && self.paths@[i] == q && self.vertices@[i].is_terminal;
                    assert(o.vertices@[i].is_terminal);
                } else if o.words().contains(q) {
                    let i = choose|i: int| 0 <= i < o.paths@.len() && o.paths@[i] == q && o.vertices@[i].is_terminal;
                    assert(self.vertices@[i].is_terminal);
                }
            }
            assert(self.words() =~= o.words().insert(o.paths@[cur as int]));
        }
    }

    /// Every start of a vertex's string is spelled by some vertex.
    proof fn lemma_ancestor(&self, m: int, l: int)
        requires
            self.wf(),
            0 <= m < self.vertices@.len(),
            0 <= l <= self.paths@[m].len(),
        ensures
            exists|a: int|
                0 <= a < self.vertices@.len() && #[trigger] self.paths@[a] == self.paths@[m].subrange(0, l),
        decreases self.paths@[m].len() - l,
    {
        if l == self.paths@[m].len() {
            assert(self.paths@[m] =~= self.paths@[m].subrange(0, l));
        } else {
            let pm = self.parents@[m];
            self.lemma_ancestor(pm, l);
            let a = choose|a: int|
                0 <= a < self.vertices@.len() && #[trigger] self.paths@[a] == self.paths@[pm].subrange(0, l);
            assert(self.paths@[a] =~= self.paths@[m].subrange(0, l));
        }
    }

    /// A vertex's string `q` that strictly extends the string of vertex `i` passes through
    /// the child of `i` under the next key of `q`.
    proof fn lemma_child_towards(&self, i: int, q: Seq<char>)
        requires
            self.wf(),
            0 <= i < self.vertices@.len(),
            self.prefixes().contains(q),
            starts(self.paths@[i], q),
            q.len() > self.paths@[i].len(),
        ensures
            self.has_child(i, q[self.paths@[i].len() as int]),
            self.paths@[self.child(i, q[self.paths@[i].len() as int])] == self.paths@[i].push(q[self.paths@[i].len() as int]),
    {
        let ln = self.paths@[i].len() as int;
        let m = choose|m: int| 0 <= m < self.paths@.len() && self.paths@[m] == q;
        self.lemma_ancestor(m, ln + 1);
        let a = choose|a: int| 0 <= a < self.vertices@.len() && #[trigger] self.paths@[a] == self.paths@[m].subrange(0, ln + 1);
        assert(q.subrange(0, ln + 1) =~= self.paths@[i].push(q[ln]));
        assert(self.paths@[a].subrange(0, ln) =~= self.paths@[i]);
        assert(self.paths@[a].last() == q[ln]);
    }

    /// When vertex `i` spells the first `t` keys of `w` and has no child under the next
    /// one, no vertex spells `w`, so none is a completion of it and it is no word.
    proof fn lemma_absent(&self, i: int, w: Seq<char>, t: int)
        requires
            self.wf(),
            0 <= i < self.vertices@.len(),
            0 <= t < w.len(),
            self.paths@[i] == w.subrange(0, t),
            !self.has_child(i, w[t]),
        ensures
            !self.prefixes().contains(w),
            !self.words().contains(w),
            forall|q: Seq<char>| !(self.prefixes().contains(q) && starts(w, q)),
    {
        assert forall|q: Seq<char>| self.prefixes().contains(q) && starts(w, q) implies false by {
            assert(q.subrange(0, t) =~= w.subrange(0, t));
            assert(starts(self.paths@[i], q));
            self.lemma_child_towards(i, q);
            assert(q[t] == w[t]);
        }
        assert(w.subrange(0, w.len() as int) =~= w);
        assert(starts(w, w));
        if self.prefixes().contains(w) {
            assert(self.prefixes().contains(w) && starts(w, w));
        }
        if self.words().contains(w) {
            let j = choose|j: int| 0 <= j < self.paths@.len() && self.paths@[j] == w && self.vertices@[j].is_terminal;
            assert(self.prefixes().contains(w));
        }
    }

    /// A vertex is harvested (it has no children, or a word ends there) exactly when its
    /// string is a word or a leaf.
    proof fn lemma_emit(&self, i: int)
        requires
            self.wf(),
            0 <= i < self.vertices@.len(),
        ensures
            (self.vertices@[i].keys@.len() == 0 || self.vertices@[i].is_terminal) == (
            self.words().contains(self.paths@[i]) || self.is_leaf(self.paths@[i])),
    {
        let q = self.paths@[i];
        assert(self.vertices@[i].keys_match());
        if self.words().contains(q) {
            let j = choose|j: int| 0 <= j < self.paths@.len() && self.paths@[j] == q && self.vertices@[j].is_terminal;
            assert(j == i);
        }
        if self.vertices@[i].is_terminal {
            assert(self.words().contains(q));
        }
        if self.vertices@[i].keys@.len() == 0 {
            assert forall|k: char| !#[trigger] self.prefixes().contains(q.push(k)) by {
                if self.prefixes().contains(q.push(k)) {
                    let m = choose|m: int| 0 <= m < self.paths@.len() && self.paths@[m] == q.push(k);
                    assert(q.push(k).subrange(0, q.len() as int) =~= q);
                    assert(self.has_child(i, self.paths@[m].last()));
                    assert(self.vertices@[i].keys@.contains(k));
                }
            }
        } else {
            let k = self.vertices@[i].keys@[0];
            assert(self.vertices@[i].keys@.contains(k));
            assert(self.has_child(i, k));
            let c = self.child(i, k);
            assert(self.prefixes().contains(self.paths@[c]));
            assert(!self.is_leaf(q));
        }
    }

    /// Appends to `out` the completions of `p` found in the subtree of vertex `i`, whose
    /// string is `path`, in depth-first order, stopping once `out` holds `limit` strings.
    fn harvest(
        &self,
        i: usize,
        path: &mut Vec<char>,
        Ghost(p): Ghost<Seq<char>>,
        depth: Option<usize>,
        limit: Option<usize>,
        out: &mut Vec<String>,
    )
        requires
            self.wf(),
            0 <= i < self.vertices@.len(),
            old(path)@ == self.paths@[i as int],
            starts(p, self.paths@[i as int]),
            self.paths@[i as int].len() == p.len() || within(depth, self.paths@[i as int].len() as int),
            limit is Some ==> old(out)@.len() <= limit->0,
        ensures
            final(path)@ == old(path)@,
            old(out)@.len() <= final(out)@.len(),
            final(out)@.subrange(0, old(out)@.len() as int) == old(out)@,
            forall|x: int|
                old(out)@.len() <= x < final(out)@.len() ==> self.suggests(p, depth, #[trigger] final(out)@[x]@)
                    && starts(self.paths@[i as int], final(out)@[x]@),
            forall|x: int, y: int|
                old(out)@.len() <= x < y < final(out)@.len() ==> #[trigger] final(out)@[x]@ != #[trigger] final(out)@[y]@,
            limit is Some ==> final(out)@.len() <= limit->0,
            under(limit, final(out)@.len() as int) ==> forall|q: Seq<char>|
                self.suggests(p, depth, q) && starts(self.paths@[i as int], q) ==> exists|x: int|
                    old(out)@.len() <= x < final(out)@.len() && #[trigger] final(out)@[x]@ == q,
        decreases self.vertices@.len() - i,
    {
        let ghost la = out@.len() as int;
        let ghost pi = self.paths@[i as int];
        let ghost ln = pi.len() as int;
        proof {
            assert(out@.subrange(0, la) =~= old(out)@);
        }
        match limit {
            Some(l) => {
                if out.len() >= l {
                    return;
                }
            },
            None => {},
        }
        proof {
            self.lemma_emit(i as int);
        }
        let emit = self.vertices[i].keys.len() == 0 || self.vertices[i].is_terminal;
        if emit {
            out.push(string_of(path));
        }
        proof {
            assert(out@.subrange(0, la) =~= old(out)@);
            assert(self.prefixes().contains(pi));
            assert(pi.subrange(0, ln) =~= pi);
            assert(forall|x: int| la <= x < out@.len() ==> out@[x]@ == pi);
            if emit {
                assert(out@[la]@ == pi);
                assert(self.suggests(p, depth, pi));
            }
        }
        let expand = match depth {
            None => true,
            Some(d) => path.len() < d,
        };
        if !expand {
            proof {
                assert forall|q: Seq<char>| self.suggests(p, depth, q) && starts(pi, q) implies exists|x: int|
                    la <= x < out@.len() && #[trigger] out@[x]@ == q by {
                    if q.len() > ln {
                    } else {
                        assert(q =~= pi);
                        assert(out@[la]@ == q);
                    }
                }
            }
            return;
        }
        let n_keys = self.vertices[i].keys.len();
        let mut t: usize = 0;
        while t < n_keys
            invariant
                self.wf(),
                0 <= i < self.vertices@.len(),
                pi == self.paths@[i as int],
                ln == pi.len(),
                within(depth, ln + 1),
                n_keys == self.vertices@[i as int].keys@.len(),
                t <= n_keys,
                path@ == pi,
                starts(p, pi),
                0 <= la <= out@.len(),
                la == old(out)@.len(),
                out@.subrange(0, la) == old(out)@,
                forall|x: int|
                    la <= x < out@.len() ==> self.suggests(p, depth, #[trigger] out@[x]@) && starts(pi, out@[x]@)
                        && (out@[x]@ == pi || (out@[x]@.len() > ln
                        && self.vertices@[i as int].keys@.subrange(0, t as int).contains(out@[x]@[ln]))),
                forall|x: int, y: int| la <= x < y < out@.len() ==> #[trigger] out@[x]@ != #[trigger] out@[y]@,
                limit is Some ==> out@.len() <= limit->0,
                under(limit, out@.len() as int) ==> forall|q: Seq<char>|
                    self.suggests(p, depth, q) && starts(pi, q) && (q == pi || (q.len() > ln
                        && self.vertices@[i as int].keys@.subrange(0, t as int).contains(q[ln])))
                        ==> exists|x: int| la <= x < out@.len() && #[trigger] out@[x]@ == q,
            decreases n_keys - t,
        {
            let k = self.vertices[i].keys[t];
            let ghost keys = self.vertices@[i as int].keys@;
            proof {
                assert(self.vertices@[i as int].keys_match());
                assert(keys[t as int] == k);
                assert(keys.contains(k));
                assert(self.has_child(i as int, k));
            }
            let c = match child_of(&self.vertices[i].children, k) {
                Some(c) => c,
                None => {
                    // every listed key has a child
                    return;
                },
            };
            proof {
                let pc = self.paths@[c as int];
                assert(pc.subrange(0, p.len() as int) =~= pi.subrange(0, p.len() as int));
            }
            path.push(k);
            let ghost before = out@;
            self.harvest(c, path, Ghost(p), depth, limit, out);
            path.pop();
            proof {
                let pc = self.paths@[c as int];
                assert(pc == pi.push(k));
                assert(path@ =~= pi);
                assert(!keys.subrange(0, t as int).contains(k));
                assert(keys.subrange(0, t as int + 1) =~= keys.subrange(0, t as int).push(k));
                assert forall|x: int| before.len() <= x < out@.len() implies out@[x]@.len() > ln && out@[x]@[ln] == k by {
                    assert(starts(pc, out@[x]@));
                    assert(out@[x]@.subrange(0, pc.len() as int)[ln] == out@[x]@[ln]);
                }
                assert forall|x: int| la <= x < out@.len() implies self.suggests(p, depth, #[trigger] out@[x]@) && starts(pi, out@[x]@)
                        && (out@[x]@ == pi || (out@[x]@.len() > ln
                        && keys.subrange(0, t as int + 1).contains(out@[x]@[ln]))) by {
                    if x >= before.len() {
                        let e = out@[x]@;
                        assert(e.subrange(0, ln) =~= pc.subrange(0, ln));
                        assert(pc.subrange(0, ln) =~= pi);
                        assert(keys.subrange(0, t as int + 1)[t as int] == k);
                    } else {
                        lemma_kept(out@, before, x);
                        if out@[x]@ != pi {
                            let j = keys.subrange(0, t as int).index_of(out@[x]@[ln]);
                            assert(keys.subrange(0, t as int + 1)[j] == out@[x]@[ln]);
                        }
                    }
                }
                assert forall|x: int, y: int| la <= x < y < out@.len() implies #[trigger] out@[x]@ != #[trigger] out@[y]@ by {
                    if x < before.len() && y >= before.len() {
                        lemma_kept(out@, before, x);
                        if out@[x]@ == out@[y]@ {
                            assert(out@[x]@ != pi);
                            assert(keys.subrange(0, t as int).contains(k));
                        }
                    } else if x < before.len() {
                        lemma_kept(out@, before, x);
                        lemma_kept(out@, before, y);
                    }
                }
                if under(limit, out@.len() as int) {
                    assert(under(limit, before.len() as int));
                    assert forall|q: Seq<char>|
                        self.suggests(p, depth, q) && starts(pi, q) && (q == pi || (q.len() > ln
                            && keys.subrange(0, t as int + 1).contains(q[ln])))
                        implies exists|x: int| la <= x < out@.len() && #[trigger] out@[x]@ == q by {
                        if q != pi && q[ln] == k {
                            assert(q.subrange(0, ln + 1) =~= pc);
                            assert(starts(pc, q));
                        } else {
                            if q != pi {
                                let j = keys.subrange(0, t as int + 1).index_of(q[ln]);
                                assert(j < t);
                                assert(keys.subrange(0, t as int)[j] == q[ln]);
                            }
                            let x = choose|x: int| la <= x < before.len() && #[trigger] before[x]@ == q;
                            lemma_kept(out@, before, x);
                        }
                    }
                }
                assert(out@.subrange(0, la) =~= old(out)@) by {
                    assert forall|x: int| 0 <= x < la implies out@[x] == old(out)@[x] by {
                        lemma_kept(out@, before, x);
                        assert(before.subrange(0, la)[x] == before[x]);
                    }
                }
            }
            t = t + 1;
        }
        proof {
            let keys = self.vertices@[i as int].keys@;
            assert(keys.subrange(0, n_keys as int) =~= keys);
            if under(limit, out@.len() as int) {
                assert forall|q: Seq<char>| self.suggests(p, depth, q) && starts(pi, q) implies exists|x: int|
                    la <= x < out@.len() && #[trigger] out@[x]@ == q by {
                    if q.len() > ln {
                        self.lemma_child_towards(i as int, q);
                        assert(self.vertices@[i as int].keys_match());
                        assert(keys.contains(q[ln]));
                    } else {
                        assert(q =~= pi);
                    }
                }
            }
        }
    }
}

/// A word that has just been inserted is found: after `insert(w)` (whose result `u` holds
/// the words of `t` and `w`), `w` is a word and a vertex spells it, so `lookup(w, ..)`
/// reports it as contained.
pub proof fn lemma_round_trip(t: Node, u: Node, w: Seq<char>)
    requires
        t.wf(),
        u.wf(),
        u.prefixes() == t.prefixes() + starts_of(w),
        u.words() == t.words().insert(w),
    ensures
        u.words().contains(w),
        u.prefixes().contains(w),
{
    assert(w.subrange(0, w.len() as int) =~= w);
    assert(starts_of(w).contains(w));
}

/// On an empty tree, a non-empty prefix is no word, no vertex spells it and it has no
/// completions, so `lookup` gives `(false, [])`.
pub proof fn lemma_empty_lookup(t: Node, p: Seq<char>, depth: Option<usize>)
    requires
        t.wf(),
        t.prefixes() == set![Seq::<char>::empty()],
        t.words() == Set::<Seq<char>>::empty(),
        p.len() > 0,
    ensures
        !t.words().contains(p),
        !t.prefixes().contains(p),
        forall|q: Seq<char>| !t.suggests(p, depth, q),
{
    assert forall|q: Seq<char>| !t.suggests(p, depth, q) by {
        if t.suggests(p, depth, q) {
            assert(q == Seq::<char>::empty());
        }
    }
}

/// Inserting a word a second time changes nothing: the tree after the second insertion
/// (`v`) has the vertices and words of the tree after the first (`u`), so every lookup
/// answers alike.
pub proof fn lemma_insert_idempotent(t: Node, u: Node, v: Node, w: Seq<char>)
    requires
        t.wf(),
        u.wf(),
        v.wf(),
        u.prefixes() == t.prefixes() + starts_of(w),
        u.words() == t.words().insert(w),
        v.prefixes() == u.prefixes() + starts_of(w),
        v.words() == u.words().insert(w),
    ensures
        v.prefixes() == u.prefixes(),
        v.words() == u.words(),
        forall|p: Seq<char>, depth: Option<usize>, q: Seq<char>|
            v.suggests(p, depth, q) == u.suggests(p, depth, q),
{
    assert(v.prefixes() =~= u.prefixes());
    assert(v.words() =~= u.words());
}

/// Trees built by the same insertions, with and without a buffer pool, answer every
/// lookup alike: where `t` and `u` agree, `t2` (after `insert(w)`) and `u2` (after
/// `insert_bypool(w, ..)`) agree on which strings are words and on every completion.
pub proof fn lemma_pool_equivalence(t: Node, u: Node, t2: Node, u2: Node, w: Seq<char>)
    requires
        t.wf(),
        u.wf(),
        t2.wf(),
        u2.wf(),
        t.prefixes() == u.prefixes(),
        t.words() == u.words(),
        t2.prefixes() == t.prefixes() + starts_of(w),
        t2.words() == t.words().insert(w),
        u2.prefixes() == u.prefixes() + starts_of(w),
        u2.words() == u.words().insert(w),
    ensures
        t2.prefixes() == u2.prefixes(),
        t2.words() == u2.words(),
        forall|p: Seq<char>| t2.words().contains(p) == u2.words().contains(p),
        forall|p: Seq<char>, depth: Option<usize>, q: Seq<char>|
            t2.suggests(p, depth, q) == u2.suggests(p, depth, q),
{
}

} // verus!
