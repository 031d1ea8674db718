//! The dependency map and the reachability relation over it.
//!
//! A `DepsMap` records, per repository, the ordered list of dependency names
//! the repository declares. Dependency names are opaque strings; a name may
//! or may not itself be a repository identifier. The planner follows the
//! reverse of these edges: a change to `d` affects every repository whose
//! declared dependencies transitively lead back to `d`.

use vstd::prelude::*;

verus! {

/// One repository together with its declared dependency names, in
/// declaration order.
pub struct DepEntry {
    /// Repository identifier (unique within one `DepsMap`).
    pub repo: String,
    /// Dependency names this repository declares, in order.
    pub deps: Vec<String>,
}

/// Mapping from repository identifier to its declared dependency names.
/// Entry order is the declaration order of the configuration; it is kept
/// because the planner uses it as the deterministic tie-break.
pub struct DepsMap {
    /// The entries; well-formed maps have pairwise distinct `repo` names.
    pub entries: Vec<DepEntry>,
}

/// The character sequences of a sequence of strings.
pub open spec fn views(s: Seq<String>) -> Seq<Seq<char>> {
    s.map_values(|x: String| x@)
}

impl DepsMap {
    /// Repository identifiers, in entry order.
    pub open spec fn repo_names(self) -> Seq<Seq<char>> {
        self.entries@.map_values(|e: DepEntry| e.repo@)
    }

    /// A map is well-formed when its repository identifiers are pairwise
    /// distinct, as identifiers of distinct repositories must be.
    pub open spec fn wf(self) -> bool {
        self.repo_names().no_duplicates()
    }

    /// Whether `r` is a repository identifier of this map.
    pub open spec fn has_repo(self, r: Seq<char>) -> bool {
        self.repo_names().contains(r)
    }

    /// The declared dependency names of repository `r` (meaningful only
    /// when `has_repo(r)`).
    pub open spec fn deps_of(self, r: Seq<char>) -> Seq<Seq<char>> {
        views(self.entries@[self.repo_names().index_of(r)].deps@)
    }

    /// Exec test for well-formedness, so that callers can establish `wf`
    /// for maps built from arbitrary configuration data.
    pub fn is_well_formed(&self) -> (r: bool)
        ensures
            r == self.wf(),
    {
        let mut i: usize = 0;
        while i < self.entries.len()
            invariant
                i <= self.entries@.len(),
                forall|a: int, b: int|
                    0 <= a < b < i ==> self.repo_names()[a] != self.repo_names()[b],
            decreases self.entries@.len() - i,
        {
            let mut j: usize = 0;
            while j < i
                invariant
                    j <= i < self.entries@.len(),
                    forall|b: int| 0 <= b < j ==> self.repo_names()[b] != self.repo_names()[i as int],
                decreases i - j,
            {
                if self.entries[j].repo == self.entries[i].repo {
                    proof {
                        assert(self.repo_names()[j as int] == self.repo_names()[i as int]);
                        assert(!self.repo_names().no_duplicates());
                    }
                    return false;
                }
                j += 1;
            }
            i += 1;
        }
        true
    }
}

/// Repository `r` declares `d` as one of its dependencies.
pub open spec fn depends_on(dm: DepsMap, r: Seq<char>, d: Seq<char>) -> bool {
    dm.has_repo(r) && dm.deps_of(r).contains(d)
}

/// `p` is a walk along dependency edges: each element declares the one
/// before it as a dependency.
pub open spec fn is_dep_path(dm: DepsMap, p: Seq<Seq<char>>) -> bool {
    &&& p.len() >= 2
    &&& forall|i: int| 0 <= i < p.len() - 1 ==> depends_on(dm, #[trigger] p[i + 1], p[i])
}

/// A change to `a` affects `b`: some repository chain leads from `a` to `b`.
pub open spec fn affects(dm: DepsMap, a: Seq<char>, b: Seq<char>) -> bool {
    exists|p: Seq<Seq<char>>| is_dep_path(dm, p) && p.first() == a && p.last() == b
}

/// The dependency map has a cycle among the repositories affected by a
/// change to `c`.
pub open spec fn has_cycle_from(dm: DepsMap, c: Seq<char>) -> bool {
    exists|r: Seq<char>| #[trigger] affects(dm, c, r) && affects(dm, r, r)
}

/// A single dependency edge is a path of length two.
pub proof fn lemma_edge_affects(dm: DepsMap, r: Seq<char>, d: Seq<char>)
    requires
        depends_on(dm, r, d),
    ensures
        affects(dm, d, r),
{
    let p = seq![d, r];
    assert(p[0int + 1] == r && p[0int] == d);
    assert(is_dep_path(dm, p));
    assert(p.first() == d && p.last() == r);
}

/// Extending a chain by one more dependent keeps it a chain.
pub proof fn lemma_affects_step(dm: DepsMap, a: Seq<char>, m: Seq<char>, r: Seq<char>)
    requires
        affects(dm, a, m),
        depends_on(dm, r, m),
    ensures
        affects(dm, a, r),
{
    let p = choose|p: Seq<Seq<char>>| is_dep_path(dm, p) && p.first() == a && p.last() == m;
    let q = p.push(r);
    assert forall|i: int| 0 <= i < q.len() - 1 implies depends_on(dm, #[trigger] q[i + 1], q[i]) by {
        if i < p.len() - 1 {
            assert(depends_on(dm, p[i + 1], p[i]));
        } else {
            assert(q[i] == p.last());
        }
    }
    assert(q.first() == a && q.last() == r);
    assert(is_dep_path(dm, q));
}

/// Chains compose.
pub proof fn lemma_affects_trans(dm: DepsMap, a: Seq<char>, b: Seq<char>, c: Seq<char>)
    requires
        affects(dm, a, b),
        affects(dm, b, c),
    ensures
        affects(dm, a, c),
{
    let p = choose|p: Seq<Seq<char>>| is_dep_path(dm, p) && p.first() == a && p.last() == b;
    let q = choose|q: Seq<Seq<char>>| is_dep_path(dm, q) && q.first() == b && q.last() == c;
    let r = p + q.drop_first();
    assert forall|i: int| 0 <= i < r.len() - 1 implies depends_on(dm, #[trigger] r[i + 1], r[i]) by {
        if i < p.len() - 1 {
            assert(depends_on(dm, p[i + 1], p[i]));
            assert(r[i] == p[i] && r[i + 1] == p[i + 1]);
        } else if i == p.len() - 1 {
            assert(r[i] == p.last());
            assert(r[i + 1] == q[1]);
            assert(depends_on(dm, q[0int + 1], q[0int]));
        } else {
            let j = i - p.len();
            assert(r[i] == q[j + 1 - 1 + 1]);
            assert(r[i + 1] == q[j + 1 + 1]);
            assert(depends_on(dm, q[(j + 1) + 1], q[j + 1]));
        }
    }
    assert(r.first() == a && r.last() == c);
    assert(r.len() >= 2);
    assert(is_dep_path(dm, r));
}

/// Everything affected is itself a repository of the map.
pub proof fn lemma_affects_has_repo(dm: DepsMap, a: Seq<char>, b: Seq<char>)
    requires
        affects(dm, a, b),
    ensures
        dm.has_repo(b),
{
    let p = choose|p: Seq<Seq<char>>| is_dep_path(dm, p) && p.first() == a && p.last() == b;
    let n = p.len() - 2;
    assert(depends_on(dm, p[n + 1], p[n]));
}

/// Every node of a chain out of `a` is affected by `a`.
pub proof fn lemma_path_nodes_affected(dm: DepsMap, p: Seq<Seq<char>>, i: int)
    requires
        is_dep_path(dm, p),
        1 <= i < p.len(),
    ensures
        affects(dm, p.first(), p[i]),
{
    let q = p.take(i + 1);
    assert forall|k: int| 0 <= k < q.len() - 1 implies depends_on(dm, #[trigger] q[k + 1], q[k]) by {
        assert(depends_on(dm, p[k + 1], p[k]));
    }
    assert(q.first() == p.first() && q.last() == p[i]);
    assert(is_dep_path(dm, q));
}

} // verus!
