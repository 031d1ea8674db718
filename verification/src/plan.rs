//! The chain planner: from a changed repository and a dependency map,
//! compute the ordered chain of update steps.
//!
//! The planner is specified by a deterministic mathematical model built from
//! three stages, mirrored one-to-one by the executable code:
//!
//! 1. the affected repositories — every repository that transitively depends
//!    on the changed one — listed in map entry order (`affected_list`);
//! 2. a topological order over the affected repositories, produced by a
//!    worklist that releases a repository once none of its affected
//!    dependencies is still unprocessed (`kahn_order`); if the worklist
//!    cannot release every affected repository, the map has a cycle and
//!    planning fails;
//! 3. the steps: walking the order, a repository's inputs are those of its
//!    declared dependencies already updated (the changed repository, or an
//!    earlier step's repository); a repository with no such input yields no
//!    step and never becomes an input itself (`steps_from`).

use vstd::prelude::*;

use crate::graph::DepsMap;
use crate::graph::affects;
use crate::graph::lemma_affects_has_repo;
use crate::graph::views;

verus! {

/// The predicate "a change to `c` affects `r`", as a function value, so that
/// every filter over it denotes the same function.
pub open spec fn affects_pred(dm: DepsMap, c: Seq<char>) -> spec_fn(Seq<char>) -> bool {
    |r: Seq<char>| affects(dm, c, r)
}

/// The repositories affected by a change to `c`, in map entry order.
pub open spec fn affected_list(dm: DepsMap, c: Seq<char>) -> Seq<Seq<char>> {
    dm.repo_names().filter(affects_pred(dm, c))
}

/// How many of the dependency occurrences in `deps` are affected
/// repositories that the worklist has not yet processed.
pub open spec fn pending_count(
    dm: DepsMap,
    c: Seq<char>,
    deps: Seq<Seq<char>>,
    popped: Set<Seq<char>>,
) -> nat
    decreases deps.len(),
{
    if deps.len() == 0 {
        0
    } else {
        pending_count(dm, c, deps.drop_last(), popped) + if affects(dm, c, deps.last())
            && !popped.contains(deps.last()) {
            1nat
        } else {
            0nat
        }
    }
}

/// The pending dependency count of repository `r`.
pub open spec fn node_pending(dm: DepsMap, c: Seq<char>, r: Seq<char>, popped: Set<Seq<char>>) -> nat {
    pending_count(dm, c, dm.deps_of(r), popped)
}

/// The repositories processed by the worklist after `h` pops: the first `h`
/// queue elements (all of them once `h` passes the queue's length).
pub open spec fn popped_upto(q: Seq<Seq<char>>, h: int) -> Set<Seq<char>> {
    q.take(
        if h < 0 {
            0
        } else if h <= q.len() {
            h
        } else {
            q.len() as int
        },
    ).to_set()
}

/// The release test after pop `h` of queue `q`: not yet queued, and no
/// affected dependency left unprocessed.
pub open spec fn ready_pred(dm: DepsMap, c: Seq<char>, q: Seq<Seq<char>>, h: int) -> spec_fn(
    Seq<char>,
) -> bool {
    |r: Seq<char>| !q.contains(r) && node_pending(dm, c, r, popped_upto(q, h + 1)) == 0
}

/// The worklist queue after `h` pops. Pops beyond the queue's length change
/// nothing; the queue only ever grows at its end.
pub open spec fn kahn_queue(dm: DepsMap, c: Seq<char>, h: nat) -> Seq<Seq<char>>
    decreases h,
{
    if h == 0 {
        affected_list(dm, c).filter(ready_pred(dm, c, Seq::empty(), -1))
    } else {
        let q = kahn_queue(dm, c, (h - 1) as nat);
        if h - 1 < q.len() {
            q + affected_list(dm, c).filter(ready_pred(dm, c, q, h - 1))
        } else {
            q
        }
    }
}

/// The topological order the worklist reaches: its fixpoint, attained after
/// at most one pop per affected repository.
pub open spec fn kahn_order(dm: DepsMap, c: Seq<char>) -> Seq<Seq<char>> {
    kahn_queue(dm, c, affected_list(dm, c).len())
}

/// Planning succeeds when the worklist ordered every affected repository.
pub open spec fn plan_ok(dm: DepsMap, c: Seq<char>) -> bool {
    kahn_order(dm, c).len() == affected_list(dm, c).len()
}

/// The affected repositories the worklist could not order (the cycle report).
pub open spec fn unresolved_pred(dm: DepsMap, c: Seq<char>) -> spec_fn(Seq<char>) -> bool {
    |r: Seq<char>| !kahn_order(dm, c).contains(r)
}

pub open spec fn unresolved_nodes(dm: DepsMap, c: Seq<char>) -> Seq<Seq<char>> {
    affected_list(dm, c).filter(unresolved_pred(dm, c))
}

/// Membership in the updated-so-far set, as a function value.
pub open spec fn updated_pred(updated: Set<Seq<char>>) -> spec_fn(Seq<char>) -> bool {
    |d: Seq<char>| updated.contains(d)
}

/// The inputs selected for repository `r`: its declared dependencies already
/// updated, in declaration order.
pub open spec fn selected_inputs(dm: DepsMap, r: Seq<char>, updated: Set<Seq<char>>) -> Seq<
    Seq<char>,
> {
    dm.deps_of(r).filter(updated_pred(updated))
}

/// The steps materialized from `order[i..]`, given the repositories already
/// updated. A repository whose selection is empty is omitted and does not
/// enter the updated set.
pub open spec fn steps_from(
    dm: DepsMap,
    c: Seq<char>,
    order: Seq<Seq<char>>,
    i: int,
    updated: Set<Seq<char>>,
) -> Seq<(Seq<char>, Seq<Seq<char>>)>
    decreases order.len() - i when 0 <= i <= order.len()
{
    if i < 0 || i >= order.len() {
        Seq::empty()
    } else {
        let ins = selected_inputs(dm, order[i], updated);
        if ins.len() > 0 {
            seq![(order[i], ins)] + steps_from(dm, c, order, i + 1, updated.insert(order[i]))
        } else {
            steps_from(dm, c, order, i + 1, updated)
        }
    }
}

/// The planned chain: the model the executable planner returns exactly.
pub open spec fn plan_chain(dm: DepsMap, c: Seq<char>) -> Seq<(Seq<char>, Seq<Seq<char>>)> {
    steps_from(dm, c, kahn_order(dm, c), 0, Set::empty().insert(c))
}

/// A pending count is zero exactly when every affected dependency occurrence
/// has been processed.
pub proof fn lemma_pending_zero(dm: DepsMap, c: Seq<char>, deps: Seq<Seq<char>>, popped: Set<Seq<char>>)
    ensures
        pending_count(dm, c, deps, popped) == 0 <==> (forall|k: int|
            0 <= k < deps.len() && affects(dm, c, #[trigger] deps[k]) ==> popped.contains(deps[k])),
    decreases deps.len(),
{
    if deps.len() > 0 {
        lemma_pending_zero(dm, c, deps.drop_last(), popped);
        assert(forall|k: int| 0 <= k < deps.len() - 1 ==> deps.drop_last()[k] == deps[k]);
        assert(deps.last() == deps[deps.len() - 1]);
    }
}

/// Filtering keeps a duplicate-free sequence duplicate-free.
pub proof fn lemma_filter_no_dup<A>(s: Seq<A>, p: spec_fn(A) -> bool)
    requires
        s.no_duplicates(),
    ensures
        s.filter(p).no_duplicates(),
    decreases s.len(),
{
    reveal(Seq::filter);
    if s.len() > 0 {
        s.drop_last().lemma_filter_len(p);
        lemma_filter_no_dup(s.drop_last(), p);
        if p(s.last()) {
            let f = s.drop_last().filter(p);
            assert forall|i: int, j: int|
                0 <= i < j < f.push(s.last()).len() implies f.push(s.last())[i] != f.push(
                s.last(),
            )[j] by {
                if j < f.len() {
                } else {
                    assert(f.contains(f[i]));
                    s.drop_last().lemma_filter_contains_rev(p, f[i]);
                    assert(s.drop_last().contains(f[i]));
                    let w = choose|w: int| 0 <= w < s.len() - 1 && s.drop_last()[w] == f[i];
                    assert(s[w] == f[i]);
                    assert(s[w] != s[s.len() - 1]);
                }
            }
        }
    }
}

/// Membership in the affected list is exactly the `affects` relation.
pub proof fn lemma_affected_contains(dm: DepsMap, c: Seq<char>, r: Seq<char>)
    ensures
        affected_list(dm, c).contains(r) <==> affects(dm, c, r),
{
    let a = affected_list(dm, c);
    let names = dm.repo_names();
    if a.contains(r) {
        let i = choose|i: int| 0 <= i < a.len() && a[i] == r;
        names.lemma_filter_pred(affects_pred(dm, c), i);
    }
    if affects(dm, c, r) {
        lemma_affects_has_repo(dm, c, r);
        let i = choose|i: int| 0 <= i < names.len() && names[i] == r;
        names.lemma_filter_contains(affects_pred(dm, c), i);
    }
}

/// The worklist invariant, for every number of pops `h`: the queue is
/// duplicate-free, holds only affected repositories, respects dependency
/// order (every affected dependency of a queued repository is queued
/// earlier), and holds exactly the affected repositories whose pending
/// count has reached zero.
pub proof fn lemma_kahn_wf(dm: DepsMap, c: Seq<char>, h: nat)
    requires
        dm.wf(),
    ensures
        ({
            let q = kahn_queue(dm, c, h);
            let a = affected_list(dm, c);
            &&& q.no_duplicates()
            &&& forall|k: int| 0 <= k < q.len() ==> a.contains(#[trigger] q[k])
            &&& forall|j: int, d: Seq<char>|
                0 <= j < q.len() && affects(dm, c, d) && #[trigger] dm.deps_of(q[j]).contains(d)
                    ==> exists|j2: int| 0 <= j2 < j && q[j2] == d
            &&& forall|r: Seq<char>|
                a.contains(r) ==> ((#[trigger] q.contains(r)) <==> node_pending(
                    dm,
                    c,
                    r,
                    popped_upto(q, h as int),
                ) == 0)
        }),
    decreases h,
{
    broadcast use vstd::set::group_set_axioms;

    let q = kahn_queue(dm, c, h);
    let a = affected_list(dm, c);
    lemma_filter_no_dup(dm.repo_names(), affects_pred(dm, c));
    if h == 0 {
        let p0 = ready_pred(dm, c, Seq::empty(), -1);
        lemma_filter_no_dup(a, p0);
        assert forall|k: int| 0 <= k < q.len() implies a.contains(#[trigger] q[k]) by {
            assert(q.contains(q[k]));
            a.lemma_filter_contains_rev(p0, q[k]);
        }
        assert(popped_upto(Seq::<Seq<char>>::empty(), 0) =~= Set::<Seq<char>>::empty());
        assert(popped_upto(q, 0) =~= Set::<Seq<char>>::empty());
        assert forall|j: int, d: Seq<char>|
            0 <= j < q.len() && affects(dm, c, d) && #[trigger] dm.deps_of(q[j]).contains(d)
        implies exists|j2: int| 0 <= j2 < j && q[j2] == d by {
            a.lemma_filter_pred(p0, j);
            lemma_pending_zero(dm, c, dm.deps_of(q[j]), popped_upto(Seq::empty(), 0));
            let k = choose|k: int| 0 <= k < dm.deps_of(q[j]).len() && dm.deps_of(q[j])[k] == d;
            assert(false);
        }
        assert forall|r: Seq<char>| a.contains(r) implies ((#[trigger] q.contains(r))
            <==> node_pending(dm, c, r, popped_upto(q, 0)) == 0) by {
            if q.contains(r) {
                let i = choose|i: int| 0 <= i < q.len() && q[i] == r;
                a.lemma_filter_pred(p0, i);
            }
            if node_pending(dm, c, r, popped_upto(q, 0)) == 0 {
                assert(p0(r));
                let i = choose|i: int| 0 <= i < a.len() && a[i] == r;
                a.lemma_filter_contains(p0, i);
            }
        }
    } else {
        let hp = (h - 1) as nat;
        lemma_kahn_wf(dm, c, hp);
        let q0 = kahn_queue(dm, c, hp);
        if h - 1 < q0.len() {
            let pr = ready_pred(dm, c, q0, h - 1);
            let add = a.filter(pr);
            assert(q == q0 + add);
            // the new segment is duplicate-free and disjoint from the old queue
            lemma_filter_no_dup(a, pr);
            assert forall|i: int, j: int|
                0 <= i < q0.len() && 0 <= j < add.len() implies q0[i] != add[j] by {
                a.lemma_filter_pred(pr, j);
                assert(!q0.contains(add[j]));
            }
            vstd::seq_lib::lemma_no_dup_in_concat(q0, add);
            assert forall|k: int| 0 <= k < q.len() implies a.contains(#[trigger] q[k]) by {
                if k < q0.len() {
                    assert(q[k] == q0[k]);
                } else {
                    assert(q[k] == add[k - q0.len()]);
                    assert(add.contains(add[k - q0.len()]));
                    a.lemma_filter_contains_rev(pr, q[k]);
                }
            }
            // the pops recorded in the new queue are those of the old one
            assert(q.take(h as int) =~= q0.take(h as int));
            let popped_new = popped_upto(q, h as int);
            assert(popped_new =~= popped_upto(q0, h as int));
            assert forall|j: int, d: Seq<char>|
                0 <= j < q.len() && affects(dm, c, d) && #[trigger] dm.deps_of(q[j]).contains(d)
            implies exists|j2: int| 0 <= j2 < j && q[j2] == d by {
                if j < q0.len() {
                    assert(q0[j] == q[j]);
                    let j2 = choose|j2: int| 0 <= j2 < j && q0[j2] == d;
                    assert(q[j2] == d);
                } else {
                    let r = add[j - q0.len()];
                    a.lemma_filter_pred(pr, j - q0.len());
                    assert(node_pending(dm, c, r, popped_upto(q0, h as int)) == 0);
                    lemma_pending_zero(dm, c, dm.deps_of(r), popped_upto(q0, h as int));
                    let k = choose|k: int|
                        0 <= k < dm.deps_of(r).len() && dm.deps_of(r)[k] == d;
                    assert(popped_upto(q0, h as int).contains(d));
                    assert(q0.take(h as int).contains(d));
                    let j2 = choose|j2: int| 0 <= j2 < h && q0.take(h as int)[j2] == d;
                    assert(q[j2] == q0[j2]);
                }
            }
            assert forall|r: Seq<char>| a.contains(r) implies ((#[trigger] q.contains(r))
                <==> node_pending(dm, c, r, popped_new) == 0) by {
                let popped_old = popped_upto(q0, (h - 1) as int);
                if q.contains(r) {
                    let i = choose|i: int| 0 <= i < q.len() && q[i] == r;
                    if i < q0.len() {
                        assert(q0.contains(r));
                        assert(node_pending(dm, c, r, popped_old) == 0);
                        lemma_pending_zero(dm, c, dm.deps_of(r), popped_old);
                        assert forall|x: Seq<char>| popped_old.contains(x) implies
                            popped_new.contains(x) by {
                            let w = choose|w: int|
                                0 <= w < h - 1 && #[trigger] q0.take((h - 1) as int)[w] == x;
                            assert(q0.take(h as int)[w] == x);
                        }
                        lemma_pending_zero(dm, c, dm.deps_of(r), popped_new);
                    } else {
                        assert(q[i] == add[i - q0.len()]);
                        a.lemma_filter_pred(pr, i - q0.len());
                    }
                }
                if node_pending(dm, c, r, popped_new) == 0 && !q.contains(r) {
                    assert(forall|k: int| 0 <= k < q0.len() ==> q[k] == q0[k]);
                    assert(!q0.contains(r));
                    assert(pr(r));
                    let i = choose|i: int| 0 <= i < a.len() && a[i] == r;
                    a.lemma_filter_contains(pr, i);
                    assert(add.contains(r));
                    let w = choose|w: int| 0 <= w < add.len() && add[w] == r;
                    assert(q[q0.len() + w] == r);
                    assert(false);
                }
            }
        } else {
            assert(q == q0);
            assert(q.take(
                if h as int <= q.len() {
                    h as int
                } else {
                    q.len() as int
                },
            ) =~= q0.take(
                if h - 1 <= q0.len() {
                    (h - 1) as int
                } else {
                    q0.len() as int
                },
            ));
            assert(popped_upto(q, h as int) == popped_upto(q0, (h - 1) as int));
        }
    }
}

/// The queue only grows: fewer pops give a prefix.
pub proof fn lemma_kahn_mono(dm: DepsMap, c: Seq<char>, h1: nat, h2: nat)
    requires
        h1 <= h2,
    ensures
        kahn_queue(dm, c, h1).is_prefix_of(kahn_queue(dm, c, h2)),
    decreases h2 - h1,
{
    if h1 < h2 {
        lemma_kahn_mono(dm, c, h1, (h2 - 1) as nat);
        let q = kahn_queue(dm, c, (h2 - 1) as nat);
        assert(q.is_prefix_of(kahn_queue(dm, c, h2)));
        assert(kahn_queue(dm, c, h1).is_prefix_of(kahn_queue(dm, c, h2)));
    } else {
        assert(kahn_queue(dm, c, h1) =~= kahn_queue(dm, c, h2).take(
            kahn_queue(dm, c, h1).len() as int,
        ));
    }
}

/// Once every queued repository is popped, further pops change nothing.
pub proof fn lemma_kahn_stable(dm: DepsMap, c: Seq<char>, h1: nat, h2: nat)
    requires
        kahn_queue(dm, c, h1).len() <= h1,
        h1 <= h2,
    ensures
        kahn_queue(dm, c, h2) == kahn_queue(dm, c, h1),
    decreases h2 - h1,
{
    if h1 < h2 {
        lemma_kahn_stable(dm, c, h1, (h2 - 1) as nat);
    }
}

/// The worklist's fixpoint: it is finished (every queued repository popped),
/// no longer than the affected list, and holds exactly the affected
/// repositories whose every affected dependency it holds as well.
pub proof fn lemma_kahn_order_terminal(dm: DepsMap, c: Seq<char>)
    requires
        dm.wf(),
    ensures
        ({
            let ko = kahn_order(dm, c);
            let a = affected_list(dm, c);
            &&& ko.len() <= a.len()
            &&& forall|r: Seq<char>|
                a.contains(r) ==> ((#[trigger] ko.contains(r)) <==> node_pending(
                    dm,
                    c,
                    r,
                    ko.to_set(),
                ) == 0)
        }),
{
    broadcast use vstd::set::group_set_axioms;

    let a = affected_list(dm, c);
    let big = a.len();
    let ko = kahn_order(dm, c);
    lemma_kahn_wf(dm, c, big);
    lemma_filter_no_dup(dm.repo_names(), affects_pred(dm, c));
    assert forall|x: Seq<char>| ko.contains(x) implies a.contains(x) by {
        let k = choose|k: int| 0 <= k < ko.len() && ko[k] == x;
    }
    lemma_nodup_subset_len(ko, a);
    let small = ko.len() as nat;
    lemma_kahn_mono(dm, c, small, big);
    assert(kahn_queue(dm, c, small).len() <= small);
    lemma_kahn_stable(dm, c, small, big);
    assert(kahn_queue(dm, c, small) == ko);
    lemma_kahn_wf(dm, c, small);
    assert(ko.take(small as int) =~= ko);
    assert(popped_upto(ko, small as int) =~= ko.to_set());
}

/// Along a dependency chain whose nodes are all in the worklist's order,
/// positions strictly increase: node `i` sits at least `i` places after the
/// chain's start.
proof fn lemma_path_pos_increases(dm: DepsMap, c: Seq<char>, p: Seq<Seq<char>>, i: int)
    requires
        dm.wf(),
        crate::graph::is_dep_path(dm, p),
        0 <= i < p.len(),
        forall|k: int| 0 <= k < p.len() ==> affects(dm, c, #[trigger] p[k]),
        forall|k: int| 0 <= k < p.len() ==> kahn_order(dm, c).contains(#[trigger] p[k]),
    ensures
        kahn_order(dm, c).index_of(p[0]) + i <= kahn_order(dm, c).index_of(p[i]),
        0 <= kahn_order(dm, c).index_of(p[i]) < kahn_order(dm, c).len(),
        kahn_order(dm, c)[kahn_order(dm, c).index_of(p[i])] == p[i],
    decreases i,
{
    let ko = kahn_order(dm, c);
    lemma_kahn_wf(dm, c, affected_list(dm, c).len());
    assert(ko.contains(p[i]));
    assert(exists|w: int| 0 <= w < ko.len() && ko[w] == p[i]);
    assert(0 <= ko.index_of(p[i]) < ko.len() && ko[ko.index_of(p[i])] == p[i]);
    if i > 0 {
        lemma_path_pos_increases(dm, c, p, i - 1);
        // the previous node is an affected dependency of this one, so it
        // was queued strictly earlier
        assert(depends_on(dm, p[i - 1 + 1], p[i - 1]));
        let j = ko.index_of(p[i]);
        assert(dm.deps_of(ko[j]).contains(p[i - 1]));
        let j2 = choose|j2: int| 0 <= j2 < j && kahn_order(dm, c)[j2] == p[i - 1];
        // duplicate-freedom makes the position unique
        assert(j2 == ko.index_of(p[i - 1]));
    }
}

use crate::graph::depends_on;
use crate::graph::is_dep_path;
use crate::graph::has_cycle_from;
use crate::graph::lemma_affects_trans;
use crate::graph::lemma_path_nodes_affected;

/// Builds, inside the unresolved set, a descending dependency chain of any
/// requested length: every unresolved repository keeps an unresolved
/// affected dependency, so chains extend indefinitely.
proof fn lemma_build_stuck_chain(dm: DepsMap, c: Seq<char>, n: nat) -> (p: Seq<Seq<char>>)
    requires
        dm.wf(),
        !plan_ok(dm, c),
    ensures
        p.len() == n + 1,
        forall|k: int| 0 <= k < p.len() ==> unresolved_nodes(dm, c).contains(#[trigger] p[k]),
        forall|k: int| 0 <= k < p.len() - 1 ==> depends_on(dm, #[trigger] p[k + 1], p[k]),
    decreases n,
{
    broadcast use vstd::set::group_set_axioms;

    let a = affected_list(dm, c);
    let ko = kahn_order(dm, c);
    let rem = unresolved_nodes(dm, c);
    lemma_kahn_order_terminal(dm, c);
    lemma_kahn_wf(dm, c, a.len());
    lemma_filter_no_dup(dm.repo_names(), affects_pred(dm, c));
    if n == 0 {
        // the unresolved set is non-empty
        if forall|x: Seq<char>| a.contains(x) ==> #[trigger] ko.contains(x) {
            lemma_nodup_subset_len(a, ko);
            assert(false);
        }
        let x = choose|x: Seq<char>| a.contains(x) && !ko.contains(x);
        let i = choose|i: int| 0 <= i < a.len() && a[i] == x;
        a.lemma_filter_contains(unresolved_pred(dm, c), i);
        let p = seq![x];
        assert(p[0int] == x);
        p
    } else {
        let p0 = lemma_build_stuck_chain(dm, c, (n - 1) as nat);
        let r = p0[0];
        // r is affected but unordered, so some affected dependency of r is
        // unordered as well
        assert(rem.contains(r));
        a.lemma_filter_contains_rev(unresolved_pred(dm, c), r);
        a.lemma_filter_pred(unresolved_pred(dm, c), choose|i: int|
            0 <= i < rem.len() && rem[i] == r,
        );
        lemma_affected_contains(dm, c, r);
        assert(affects(dm, c, r));
        lemma_affects_has_repo(dm, c, r);
        assert(node_pending(dm, c, r, ko.to_set()) != 0);
        lemma_pending_zero(dm, c, dm.deps_of(r), ko.to_set());
        let k = choose|k: int|
            0 <= k < dm.deps_of(r).len() && affects(dm, c, #[trigger] dm.deps_of(r)[k])
                && !ko.to_set().contains(dm.deps_of(r)[k]);
        let d = dm.deps_of(r)[k];
        assert(dm.deps_of(r).contains(d));
        assert(depends_on(dm, r, d));
        lemma_affected_contains(dm, c, d);
        let di = choose|di: int| 0 <= di < a.len() && a[di] == d;
        a.lemma_filter_contains(unresolved_pred(dm, c), di);
        assert(rem.contains(d));
        let p = seq![d] + p0;
        assert forall|k2: int| 0 <= k2 < p.len() - 1 implies depends_on(
            dm,
            #[trigger] p[k2 + 1],
            p[k2],
        ) by {
            if k2 == 0 {
                assert(p[0int] == d && p[1int] == r);
            } else {
                assert(p[k2] == p0[k2 - 1] && p[k2 + 1] == p0[k2 - 1 + 1]);
                assert(depends_on(dm, p0[k2 - 1 + 1], p0[k2 - 1]));
            }
        }
        p
    }
}

/// planning fails exactly when the dependency map has a cycle among
/// the repositories affected by the change. In particular a map that is a
/// DAG on the affected set always yields a full chain, and a cycle never
/// yields a partial one.
pub proof fn lemma_plan_err_iff_cycle(dm: DepsMap, c: Seq<char>)
    requires
        dm.wf(),
    ensures
        !plan_ok(dm, c) <==> has_cycle_from(dm, c),
{
    broadcast use vstd::set::group_set_axioms;

    let a = affected_list(dm, c);
    let ko = kahn_order(dm, c);
    lemma_filter_no_dup(dm.repo_names(), affects_pred(dm, c));
    lemma_kahn_wf(dm, c, a.len());
    if plan_ok(dm, c) && has_cycle_from(dm, c) {
        // a cycle node and its whole loop sit in the affected set, hence in
        // the order; positions along the loop strictly increase, yet the
        // loop returns to its start
        let r = choose|r: Seq<char>| #[trigger] affects(dm, c, r) && affects(dm, r, r);
        let p = choose|p: Seq<Seq<char>>|
            is_dep_path(dm, p) && p.first() == r && p.last() == r;
        assert forall|k: int| 0 <= k < p.len() implies affects(dm, c, #[trigger] p[k]) by {
            if k == 0 {
                assert(p[k] == r);
            } else {
                lemma_path_nodes_affected(dm, p, k);
                lemma_affects_trans(dm, c, r, p[k]);
            }
        }
        assert forall|k: int| 0 <= k < p.len() implies ko.contains(#[trigger] p[k]) by {
            lemma_affected_contains(dm, c, p[k]);
            let i = choose|i: int| 0 <= i < a.len() && a[i] == p[k];
            // the order and the affected list have the same members when
            // planning succeeded
            if !ko.contains(p[k]) {
                a.lemma_filter_contains(unresolved_pred(dm, c), i);
                let rem = unresolved_nodes(dm, c);
                assert(rem.contains(p[k]));
                lemma_filter_no_dup(a, unresolved_pred(dm, c));
                // every unresolved node is in `a` but not in `ko`; with
                // equal lengths that is impossible
                assert forall|x: Seq<char>| a.contains(x) implies #[trigger] ko.contains(x) by {
                    if !ko.contains(x) {
                        let xi = choose|xi: int| 0 <= xi < a.len() && a[xi] == x;
                        a.lemma_filter_contains(unresolved_pred(dm, c), xi);
                        // rem is non-empty while ko covers all but rem of a;
                        // count: ko and rem are disjoint subsets of a
                        assert(rem.contains(x));
                        let both = ko + rem;
                        assert forall|i2: int, j2: int|
                            0 <= i2 < ko.len() && 0 <= j2 < rem.len() implies ko[i2] != rem[j2] by {
                            a.lemma_filter_pred(unresolved_pred(dm, c), j2);
                        }
                        vstd::seq_lib::lemma_no_dup_in_concat(ko, rem);
                        assert forall|y: Seq<char>| both.contains(y) implies a.contains(y) by {
                            let yi = choose|yi: int| 0 <= yi < both.len() && both[yi] == y;
                            if yi < ko.len() {
                                assert(ko.contains(y));
                                let w = choose|w: int| 0 <= w < ko.len() && ko[w] == y;
                            } else {
                                assert(rem.contains(y));
                                a.lemma_filter_contains_rev(unresolved_pred(dm, c), y);
                            }
                        }
                        lemma_nodup_subset_len(both, a);
                        assert(rem.contains(x));
                        assert(rem.len() >= 1);
                        assert(false);
                    }
                }
                assert(false);
            }
        }
        lemma_path_pos_increases(dm, c, p, p.len() - 1);
        assert(p[p.len() - 1] == p[0]);
        assert(false);
    }
    if !plan_ok(dm, c) {
        // an endless descending chain inside the finite unresolved set must
        // revisit a node: that loop is a cycle reachable from the change
        let rem = unresolved_nodes(dm, c);
        lemma_filter_no_dup(a, unresolved_pred(dm, c));
        let p = lemma_build_stuck_chain(dm, c, rem.len());
        if p.no_duplicates() {
            lemma_nodup_subset_len(p, rem);
            assert(false);
        }
        let (i0, j0) = choose|i0: int, j0: int|
            0 <= i0 < p.len() && 0 <= j0 < p.len() && i0 != j0 && p[i0] == p[j0];
        let i = if i0 < j0 {
            i0
        } else {
            j0
        };
        let j = if i0 < j0 {
            j0
        } else {
            i0
        };
        let cyc = p.subrange(i, j + 1);
        assert forall|k: int| 0 <= k < cyc.len() - 1 implies depends_on(
            dm,
            #[trigger] cyc[k + 1],
            cyc[k],
        ) by {
            assert(cyc[k] == p[i + k] && cyc[k + 1] == p[i + k + 1]);
            assert(depends_on(dm, p[(i + k) + 1], p[i + k]));
        }
        assert(is_dep_path(dm, cyc));
        assert(cyc.first() == p[i] && cyc.last() == p[j]);
        assert(affects(dm, p[i], p[i]));
        assert(rem.contains(p[i]));
        a.lemma_filter_contains_rev(unresolved_pred(dm, c), p[i]);
        lemma_affected_contains(dm, c, p[i]);
        assert(affects(dm, c, p[i]) && affects(dm, p[i], p[i]));
        assert(has_cycle_from(dm, c));
    }
}

/// Structure of materialized steps: every step has inputs; every step's
/// repository comes from the remaining order, each at most once; and every
/// input was updated before the walk began or by an earlier step.
proof fn lemma_steps_from_props(
    dm: DepsMap,
    c: Seq<char>,
    order: Seq<Seq<char>>,
    i: int,
    updated: Set<Seq<char>>,
)
    requires
        order.no_duplicates(),
        0 <= i <= order.len(),
    ensures
        ({
            let s = steps_from(dm, c, order, i, updated);
            &&& forall|x: int| 0 <= x < s.len() ==> (#[trigger] s[x].1).len() > 0
            &&& forall|x: int|
                0 <= x < s.len() ==> exists|oi: int|
                    i <= oi < order.len() && order[oi] == (#[trigger] s[x].0)
            &&& forall|x: int, k: int|
                0 <= x < s.len() && 0 <= k < s[x].1.len() ==> updated.contains(
                    #[trigger] s[x].1[k],
                ) || exists|y: int| 0 <= y < x && s[y].0 == s[x].1[k]
            &&& forall|x: int, y: int|
                0 <= x < y < s.len() ==> (#[trigger] s[x].0) != (#[trigger] s[y].0)
        }),
    decreases order.len() - i,
{
    broadcast use vstd::set::group_set_axioms;

    let s = steps_from(dm, c, order, i, updated);
    if i < order.len() {
        let ins = selected_inputs(dm, order[i], updated);
        if ins.len() > 0 {
            let upd2 = updated.insert(order[i]);
            lemma_steps_from_props(dm, c, order, i + 1, upd2);
            let tail = steps_from(dm, c, order, i + 1, upd2);
            assert(s == seq![(order[i], ins)] + tail);
            assert(s[0int].0 == order[i] && s[0int].1 == ins);
            assert forall|x: int| 0 <= x < s.len() implies (#[trigger] s[x].1).len() > 0 by {
                if x > 0 {
                    assert(s[x] == tail[x - 1]);
                }
            }
            assert forall|x: int| 0 <= x < s.len() implies exists|oi: int|
                i <= oi < order.len() && order[oi] == (#[trigger] s[x].0) by {
                if x == 0 {
                    assert(order[i] == s[0int].0);
                } else {
                    assert(0 <= x - 1 < tail.len());
                    assert(s[x] == tail[x - 1]);
                    assert(tail[x - 1].0 == s[x].0);
                    assert(exists|oi: int|
                        i + 1 <= oi < order.len() && order[oi] == (#[trigger] tail[x - 1]).0);
                    let oi = choose|oi: int|
                        i + 1 <= oi < order.len() && order[oi] == tail[x - 1].0;
                    assert(order[oi] == s[x].0);
                }
            }
            assert forall|x: int, k: int|
                0 <= x < s.len() && 0 <= k < s[x].1.len() implies updated.contains(
                #[trigger] s[x].1[k],
            ) || exists|y: int| 0 <= y < x && s[y].0 == s[x].1[k] by {
                if x == 0 {
                    dm.deps_of(order[i]).lemma_filter_pred(updated_pred(updated), k);
                } else {
                    assert(s[x] == tail[x - 1]);
                    let v = s[x].1[k];
                    assert((#[trigger] tail[x - 1].1)[k] == v);
                    if upd2.contains(v) {
                        if v == order[i] {
                            assert(s[0int].0 == v);
                        } else {
                            assert(updated.contains(v));
                        }
                    } else {
                        assert(exists|y: int| 0 <= y < x - 1 && tail[y].0 == tail[x - 1].1[k]);
                        let y = choose|y: int| 0 <= y < x - 1 && tail[y].0 == tail[x - 1].1[k];
                        assert(s[y + 1].0 == v);
                    }
                }
            }
            assert forall|x: int, y: int|
                0 <= x < y < s.len() implies (#[trigger] s[x].0) != (#[trigger] s[y].0) by {
                assert(s[y] == tail[y - 1]);
                assert(tail[y - 1].0 == s[y].0);
                assert(exists|oi: int|
                    i + 1 <= oi < order.len() && order[oi] == (#[trigger] tail[y - 1]).0);
                let oi = choose|oi: int| i + 1 <= oi < order.len() && order[oi] == tail[y - 1].0;
                if x == 0 {
                    assert(order[i] != order[oi]);
                } else {
                    assert(s[x] == tail[x - 1]);
                    assert(tail[x - 1].0 == s[x].0);
                }
            }
        } else {
            lemma_steps_from_props(dm, c, order, i + 1, updated);
            let tail = steps_from(dm, c, order, i + 1, updated);
            assert(s == tail);
            assert forall|x: int| 0 <= x < s.len() implies exists|oi: int|
                i <= oi < order.len() && order[oi] == (#[trigger] s[x].0) by {
                assert((#[trigger] tail[x]).0 == s[x].0);
                assert(exists|oi: int|
                    i + 1 <= oi < order.len() && order[oi] == (#[trigger] tail[x]).0);
                let oi = choose|oi: int| i + 1 <= oi < order.len() && order[oi] == tail[x].0;
                assert(i <= oi < order.len() && order[oi] == s[x].0);
            }
        }
    }
}

/// the planned chain is topologically consistent. Every step's inputs
/// are the changed repository or repositories of earlier steps, every step
/// carries at least one input, a repository appears at most once, and every
/// step's repository is affected by the change.
pub proof fn lemma_chain_topological(dm: DepsMap, c: Seq<char>)
    requires
        dm.wf(),
    ensures
        ({
            let chain = plan_chain(dm, c);
            &&& forall|x: int, k: int|
                0 <= x < chain.len() && 0 <= k < chain[x].1.len() ==> (#[trigger] chain[x].1[k])
                    == c || exists|y: int| 0 <= y < x && chain[y].0 == chain[x].1[k]
            &&& forall|x: int| 0 <= x < chain.len() ==> (#[trigger] chain[x].1).len() > 0
            &&& forall|x: int, y: int|
                0 <= x < y < chain.len() ==> (#[trigger] chain[x].0) != (#[trigger] chain[y].0)
            &&& forall|x: int| 0 <= x < chain.len() ==> affects(dm, c, (#[trigger] chain[x]).0)
        }),
{
    broadcast use vstd::set::group_set_axioms;

    let ko = kahn_order(dm, c);
    let chain = plan_chain(dm, c);
    lemma_kahn_wf(dm, c, affected_list(dm, c).len());
    let upd0 = Set::empty().insert(c);
    lemma_steps_from_props(dm, c, ko, 0, upd0);
    assert forall|x: int, k: int|
        0 <= x < chain.len() && 0 <= k < chain[x].1.len() implies (#[trigger] chain[x].1[k]) == c
        || exists|y: int| 0 <= y < x && chain[y].0 == chain[x].1[k] by {
        if upd0.contains(chain[x].1[k]) {
            assert(chain[x].1[k] == c);
        }
    }
    assert forall|x: int| 0 <= x < chain.len() implies affects(dm, c, (#[trigger] chain[x]).0) by {
        let oi = choose|oi: int| 0 <= oi < ko.len() && ko[oi] == chain[x].0;
        assert(affected_list(dm, c).contains(ko[oi]));
        lemma_affected_contains(dm, c, chain[x].0);
    }
}

/// a repository the planner omitted — one that yields no step — never
/// appears as an input of any later step, so no update is ever scoped to a
/// dependency that was not itself updated during the run.
pub proof fn lemma_omitted_never_input(dm: DepsMap, c: Seq<char>, r: Seq<char>)
    requires
        dm.wf(),
        plan_ok(dm, c),
        affects(dm, c, r),
        forall|y: int|
            0 <= y < plan_chain(dm, c).len() ==> (#[trigger] plan_chain(dm, c)[y]).0 != r,
    ensures
        forall|x: int, k: int|
            0 <= x < plan_chain(dm, c).len() && 0 <= k < plan_chain(dm, c)[x].1.len()
                ==> #[trigger] plan_chain(dm, c)[x].1[k] != r,
{
    let chain = plan_chain(dm, c);
    lemma_chain_topological(dm, c);
    // the changed repository cannot be the omitted one: a repository
    // affected by itself would be a cycle, and planning succeeded
    if r == c {
        assert(has_cycle_from(dm, c));
        lemma_plan_err_iff_cycle(dm, c);
        assert(false);
    }
    assert forall|x: int, k: int|
        0 <= x < chain.len() && 0 <= k < chain[x].1.len() implies #[trigger] chain[x].1[k]
        != r by {
        if chain[x].1[k] != c {
            let y = choose|y: int| 0 <= y < x && chain[y].0 == chain[x].1[k];
        }
    }
}

/// Entry `i`'s repository is a repository of the map, and with distinct
/// names its dependency list is the one `deps_of` denotes.
pub proof fn lemma_entry_deps(dm: DepsMap, i: int)
    requires
        dm.wf(),
        0 <= i < dm.entries@.len(),
    ensures
        dm.has_repo(dm.repo_names()[i]),
        dm.deps_of(dm.repo_names()[i]) == views(dm.entries@[i].deps@),
{
    let names = dm.repo_names();
    assert(names[i] == dm.entries@[i].repo@);
    assert(names.contains(names[i]));
    let j = names.index_of(names[i]);
    assert(exists|k: int| 0 <= k < names.len() && names[k] == names[i]);
    assert(0 <= j < names.len() && names[j] == names[i]);
    assert(j == i);
}

/// A duplicate-free sequence whose elements all occur in another
/// duplicate-free sequence is no longer than it.
pub proof fn lemma_nodup_subset_len<A>(s: Seq<A>, t: Seq<A>)
    requires
        s.no_duplicates(),
        t.no_duplicates(),
        forall|x: A| s.contains(x) ==> t.contains(x),
    ensures
        s.len() <= t.len(),
{
    broadcast use vstd::seq_lib::seq_to_set_is_finite;

    s.unique_seq_to_set();
    t.unique_seq_to_set();
    assert(s.to_set().subset_of(t.to_set()));
    vstd::set_lib::lemma_len_subset(s.to_set(), t.to_set());
}

/// Planning errors.
#[derive(Debug)]
pub enum PlanError {
    /// The dependency map is not acyclic on the affected repositories; the
    /// unordered ones are reported so the configuration can be fixed.
    Cycle { nodes: Vec<String> },
}

/// The views of a sequence of steps.
pub open spec fn steps_view(s: Seq<crate::UpdateStep>) -> Seq<(Seq<char>, Seq<Seq<char>>)> {
    s.map_values(|st: crate::UpdateStep| st.view())
}

/// Whether `x` occurs among the strings of `v`.
fn vec_contains_string(v: &Vec<String>, x: &String) -> (r: bool)
    ensures
        r == views(v@).contains(x@),
{
    let mut i: usize = 0;
    while i < v.len()
        invariant
            i <= v@.len(),
            forall|k: int| 0 <= k < i ==> views(v@)[k] != x@,
        decreases v@.len() - i,
    {
        if v[i] == *x {
            proof {
                assert(views(v@)[i as int] == x@);
            }
            return true;
        }
        i += 1;
    }
    false
}

/// Whether `x` occurs among the first `h` strings of `v`.
fn vec_contains_prefix(v: &Vec<String>, h: usize, x: &String) -> (r: bool)
    requires
        h <= v@.len(),
    ensures
        r == views(v@).take(h as int).contains(x@),
{
    let mut i: usize = 0;
    while i < h
        invariant
            i <= h <= v@.len(),
            forall|k: int| 0 <= k < i ==> views(v@).take(h as int)[k] != x@,
        decreases h - i,
    {
        if v[i] == *x {
            proof {
                assert(views(v@).take(h as int)[i as int] == x@);
            }
            return true;
        }
        i += 1;
    }
    false
}

/// Position of the entry whose repository is `name`.
fn find_entry(dm: &DepsMap, name: &String) -> (i: usize)
    requires
        dm.wf(),
        dm.has_repo(name@),
    ensures
        i < dm.entries@.len(),
        dm.entries@[i as int].repo@ == name@,
        views(dm.entries@[i as int].deps@) == dm.deps_of(name@),
{
    let mut i: usize = 0;
    while i < dm.entries.len()
        invariant
            i <= dm.entries@.len(),
            dm.wf(),
            dm.has_repo(name@),
            forall|k: int| 0 <= k < i ==> dm.repo_names()[k] != name@,
        decreases dm.entries@.len() - i,
    {
        if dm.entries[i].repo == *name {
            proof {
                assert(dm.repo_names()[i as int] == name@);
                lemma_entry_deps(*dm, i as int);
            }
            return i;
        }
        i += 1;
    }
    proof {
        let k = choose|k: int|
            0 <= k < dm.repo_names().len() && dm.repo_names()[k] == name@;
        assert(false);
    }
    0
}

/// Counts the dependency occurrences in `deps` that are affected and not
/// among the first `h` queue entries.
fn count_pending(
    dm: &DepsMap,
    changed: &String,
    deps: &Vec<String>,
    aff: &Vec<String>,
    queue: &Vec<String>,
    h: usize,
) -> (n: usize)
    requires
        h <= queue@.len(),
        views(aff@) == affected_list(*dm, changed@),
    ensures
        n as nat == pending_count(*dm, changed@, views(deps@), popped_upto(views(queue@), h as int)),
{
    broadcast use vstd::set::group_set_axioms;

    let ghost c = changed@;
    let ghost popped = popped_upto(views(queue@), h as int);
    let mut n: usize = 0;
    let mut k: usize = 0;
    while k < deps.len()
        invariant
            k <= deps@.len(),
            n <= k,
            h <= queue@.len(),
            views(aff@) == affected_list(*dm, c),
            popped == popped_upto(views(queue@), h as int),
            n as nat == pending_count(*dm, c, views(deps@).take(k as int), popped),
        decreases deps@.len() - k,
    {
        let is_aff = vec_contains_string(aff, &deps[k]);
        let in_popped = vec_contains_prefix(queue, h, &deps[k]);
        proof {
            lemma_affected_contains(*dm, c, views(deps@)[k as int]);
            assert(is_aff == affects(*dm, c, views(deps@)[k as int]));
            assert(popped.contains(views(deps@)[k as int]) == views(queue@).take(
                h as int,
            ).contains(views(deps@)[k as int]));
            assert(views(deps@).take(k + 1).drop_last() =~= views(deps@).take(k as int));
            assert(views(deps@).take(k + 1).last() == views(deps@)[k as int]);
        }
        if is_aff && !in_popped {
            n += 1;
        }
        k += 1;
    }
    proof {
        assert(views(deps@).take(deps@.len() as int) =~= views(deps@));
    }
    n
}

/// Pushing keeps old members, adds the new one, and nothing else.
proof fn lemma_push_keeps_contains(s: Seq<Seq<char>>, s2: Seq<Seq<char>>, x: Seq<char>)
    requires
        s2 == s.push(x),
    ensures
        forall|y: Seq<char>| s.contains(y) ==> #[trigger] s2.contains(y),
        s2.contains(x),
        forall|y: Seq<char>| #[trigger] s2.contains(y) ==> y == x || s.contains(y),
{
    assert forall|y: Seq<char>| s.contains(y) implies #[trigger] s2.contains(y) by {
        let k = choose|k: int| 0 <= k < s.len() && s[k] == y;
        assert(s2[k] == y);
    }
    assert(s2[s.len() as int] == x);
    assert forall|y: Seq<char>| #[trigger] s2.contains(y) implies y == x || s.contains(y) by {
        let k = choose|k: int| 0 <= k < s2.len() && s2[k] == y;
        if k < s.len() {
            assert(s[k] == y);
        }
    }
}

/// Breadth-first discovery of the repositories affected by the change.
fn bfs_affected(dm: &DepsMap, changed: &String) -> (disc: Vec<String>)
    requires
        dm.wf(),
    ensures
        forall|r: Seq<char>| views(disc@).contains(r) <==> affects(*dm, changed@, r),
{
    broadcast use vstd::seq_lib::group_seq_properties;
    broadcast use vstd::set::group_set_axioms;

    let ghost c = changed@;
    let n = dm.entries.len();
    let mut disc: Vec<String> = Vec::new();
    // seed: the direct dependents of the changed repository
    let mut i: usize = 0;
    while i < n
        invariant
            c == changed@,
            i <= n == dm.entries@.len(),
            dm.wf(),
            views(disc@).no_duplicates(),
            forall|k: int| 0 <= k < views(disc@).len() ==> affects(*dm, c, #[trigger] views(disc@)[k]),
            forall|j: int|
                0 <= j < i && views(dm.entries@[j].deps@).contains(c) ==> views(disc@).contains(
                    #[trigger] dm.repo_names()[j],
                ),
        decreases n - i,
    {
        let hit = vec_contains_string(&dm.entries[i].deps, changed);
        if hit && !vec_contains_string(&disc, &dm.entries[i].repo) {
            proof {
                lemma_entry_deps(*dm, i as int);
                assert(dm.has_repo(dm.repo_names()[i as int]));
                assert(views(dm.entries@[i as int].deps@).contains(c));
                assert(depends_on(*dm, dm.repo_names()[i as int], c));
                crate::graph::lemma_edge_affects(*dm, dm.repo_names()[i as int], c);
            }
            let ghost d0 = views(disc@);
            disc.push(dm.entries[i].repo.clone());
            proof {
                assert(views(disc@) =~= d0.push(dm.repo_names()[i as int]));
                lemma_push_keeps_contains(d0, views(disc@), dm.repo_names()[i as int]);
            }
        }
        i += 1;
    }
    proof {
        assert forall|r: Seq<char>| depends_on(*dm, r, c) implies views(disc@).contains(r) by {
            let ji = choose|ji: int|
                0 <= ji < dm.repo_names().len() && dm.repo_names()[ji] == r;
            lemma_entry_deps(*dm, ji);
            assert(views(dm.entries@[ji].deps@).contains(c));
        }
    }
    // worklist: close the discovered set under dependents
    let mut head: usize = 0;
    while head < disc.len()
        invariant
            c == changed@,
            head <= views(disc@).len(),
            dm.entries@.len() == n,
            dm.wf(),
            views(disc@).no_duplicates(),
            forall|k: int| 0 <= k < views(disc@).len() ==> affects(*dm, c, #[trigger] views(disc@)[k]),
            forall|r: Seq<char>| depends_on(*dm, r, c) ==> views(disc@).contains(r),
            forall|k: int, r: Seq<char>|
                0 <= k < head && #[trigger] depends_on(*dm, r, views(disc@)[k]) ==> views(
                    disc@,
                ).contains(r),
        decreases n - head,
    {
        proof {
            assert forall|k: int| 0 <= k < views(disc@).len() implies dm.repo_names().contains(
                #[trigger] views(disc@)[k],
            ) by {
                lemma_affects_has_repo(*dm, c, views(disc@)[k]);
            }
            lemma_nodup_subset_len(views(disc@), dm.repo_names());
        }
        let current = disc[head].clone();
        let ghost cur = views(disc@)[head as int];
        assert(current@ == cur);
        let mut j: usize = 0;
        while j < n
            invariant
                c == changed@,
                j <= n == dm.entries@.len(),
                head < views(disc@).len(),
                views(disc@)[head as int] == cur,
                current@ == cur,
                dm.wf(),
                views(disc@).no_duplicates(),
                forall|k: int|
                    0 <= k < views(disc@).len() ==> affects(*dm, c, #[trigger] views(disc@)[k]),
                forall|r: Seq<char>| depends_on(*dm, r, c) ==> views(disc@).contains(r),
                forall|k: int, r: Seq<char>|
                    0 <= k < head && #[trigger] depends_on(*dm, r, views(disc@)[k]) ==> views(
                        disc@,
                    ).contains(r),
                forall|jj: int|
                    0 <= jj < j && views(dm.entries@[jj].deps@).contains(cur) ==> views(
                        disc@,
                    ).contains(#[trigger] dm.repo_names()[jj]),
            decreases n - j,
        {
            let hit = vec_contains_string(&dm.entries[j].deps, &current);
            if hit && !vec_contains_string(&disc, &dm.entries[j].repo) {
                proof {
                    lemma_entry_deps(*dm, j as int);
                    assert(views(dm.entries@[j as int].deps@).contains(cur));
                    assert(depends_on(*dm, dm.repo_names()[j as int], cur));
                    assert(affects(*dm, c, cur));
                    crate::graph::lemma_affects_step(*dm, c, cur, dm.repo_names()[j as int]);
                }
                let ghost d0 = views(disc@);
                disc.push(dm.entries[j].repo.clone());
                proof {
                    assert(views(disc@) =~= d0.push(dm.repo_names()[j as int]));
                    lemma_push_keeps_contains(d0, views(disc@), dm.repo_names()[j as int]);
                }
            }
            j += 1;
        }
        proof {
            assert forall|r: Seq<char>| depends_on(*dm, r, cur) implies views(
                disc@,
            ).contains(r) by {
                let ji = choose|ji: int|
                    0 <= ji < dm.repo_names().len() && dm.repo_names()[ji] == r;
                lemma_entry_deps(*dm, ji);
                assert(views(dm.entries@[ji].deps@).contains(cur));
            }
        }
        head += 1;
    }
    // the discovered set is closed, so it holds every chain out of `c`
    proof {
        assert forall|r: Seq<char>| affects(*dm, c, r) implies views(disc@).contains(r) by {
            let p = choose|p: Seq<Seq<char>>|
                is_dep_path(*dm, p) && p.first() == c && p.last() == r;
            lemma_closed_reaches(*dm, c, views(disc@), p, p.len() - 1);
        }
    }
    disc
}

/// Lists the affected repositories in map entry order, given the discovered
/// membership.
fn collect_affected(dm: &DepsMap, disc: &Vec<String>, changed: &String) -> (aff: Vec<String>)
    requires
        dm.wf(),
        forall|r: Seq<char>| views(disc@).contains(r) <==> affects(*dm, changed@, r),
    ensures
        views(aff@) == affected_list(*dm, changed@),
{
    let ghost c = changed@;
    let ghost pred = affects_pred(*dm, c);
    let n = dm.entries.len();
    let mut aff: Vec<String> = Vec::new();
    let mut i: usize = 0;
    while i < n
        invariant
            c == changed@,
            pred == affects_pred(*dm, c),
            i <= n == dm.entries@.len(),
            dm.wf(),
            forall|r: Seq<char>| views(disc@).contains(r) <==> affects(*dm, c, r),
            views(aff@) == dm.repo_names().take(i as int).filter(pred),
        decreases n - i,
    {
        let hit = vec_contains_string(disc, &dm.entries[i].repo);
        let ghost a0 = views(aff@);
        let ghost nm = dm.repo_names()[i as int];
        proof {
            assert(dm.repo_names().take(i + 1).drop_last() =~= dm.repo_names().take(i as int));
            assert(dm.repo_names().take(i + 1) =~= dm.repo_names().take(i as int).push(nm));
            dm.repo_names().take(i as int).lemma_filter_push(nm, pred);
            assert(hit == pred(nm));
        }
        if hit {
            aff.push(dm.entries[i].repo.clone());
            proof {
                assert(views(aff@) =~= a0.push(nm));
            }
        }
        i += 1;
    }
    proof {
        assert(dm.repo_names().take(n as int) =~= dm.repo_names());
    }
    aff
}

/// Runs the worklist to its fixpoint, returning the topological order it
/// reaches over the affected repositories.
fn kahn_exec(dm: &DepsMap, changed: &String, aff: &Vec<String>) -> (queue: Vec<String>)
    requires
        dm.wf(),
        views(aff@) == affected_list(*dm, changed@),
    ensures
        views(queue@) == kahn_order(*dm, changed@),
{
    broadcast use vstd::set::group_set_axioms;

    let ghost c = changed@;
    let ghost a = affected_list(*dm, c);
    let m = aff.len();
    let mut queue: Vec<String> = Vec::new();
    // release every repository with no affected dependency at all
    let ghost pred0 = ready_pred(*dm, c, Seq::empty(), -1);
    let mut i: usize = 0;
    while i < m
        invariant
            c == changed@,
            dm.wf(),
            views(aff@) == a,
            a == affected_list(*dm, c),
            m == aff@.len(),
            i <= m,
            pred0 == ready_pred(*dm, c, Seq::empty(), -1),
            views(queue@) == a.take(i as int).filter(pred0),
        decreases m - i,
    {
        let name = &aff[i];
        proof {
            assert(a[i as int] == name@);
            assert(a.contains(name@));
            lemma_affected_contains(*dm, c, name@);
            lemma_affects_has_repo(*dm, c, name@);
        }
        let ei = find_entry(dm, name);
        let pend = count_pending(dm, changed, &dm.entries[ei].deps, aff, &queue, 0);
        let ghost q0 = views(queue@);
        proof {
            assert(popped_upto(q0, 0) =~= popped_upto(Seq::<Seq<char>>::empty(), 0));
            assert(!Seq::<Seq<char>>::empty().contains(a[i as int])) by {
                assert(Seq::<Seq<char>>::empty().len() == 0);
            }
            assert((pend == 0) == pred0(a[i as int]));
            assert(a.take(i + 1).drop_last() =~= a.take(i as int));
            assert(a.take(i + 1) =~= a.take(i as int).push(a[i as int]));
            a.take(i as int).lemma_filter_push(a[i as int], pred0);
        }
        if pend == 0 {
            queue.push(name.clone());
            proof {
                assert(views(queue@) =~= q0.push(a[i as int]));
            }
        }
        i += 1;
    }
    proof {
        assert(a.take(m as int) =~= a);
        assert(views(queue@) == kahn_queue(*dm, c, 0));
    }
    // pop repositories in turn, releasing each repository whose last
    // affected dependency has now been processed
    let mut head: usize = 0;
    while head < queue.len()
        invariant
            c == changed@,
            dm.wf(),
            views(aff@) == a,
            a == affected_list(*dm, c),
            m == aff@.len(),
            head <= views(queue@).len(),
            views(queue@) == kahn_queue(*dm, c, head as nat),
        decreases m + 1 - head,
    {
        proof {
            lemma_kahn_wf(*dm, c, head as nat);
            lemma_filter_no_dup(dm.repo_names(), affects_pred(*dm, c));
            assert forall|x: Seq<char>| views(queue@).contains(x) implies a.contains(x) by {
                let k = choose|k: int| 0 <= k < views(queue@).len() && views(queue@)[k] == x;
            }
            lemma_nodup_subset_len(views(queue@), a);
        }
        let hp: usize = head + 1;
        let ghost q0 = views(queue@);
        let ghost pr = ready_pred(*dm, c, q0, head as int);
        let mut i: usize = 0;
        while i < m
            invariant
                c == changed@,
                dm.wf(),
                views(aff@) == a,
                a == affected_list(*dm, c),
                m == aff@.len(),
                i <= m,
                head < q0.len(),
                hp == head + 1,
                q0 == kahn_queue(*dm, c, head as nat),
                pr == ready_pred(*dm, c, q0, head as int),
                a.no_duplicates(),
                views(queue@) == q0 + a.take(i as int).filter(pr),
            decreases m - i,
        {
            let name = &aff[i];
            let ghost added = a.take(i as int).filter(pr);
            proof {
                assert(a[i as int] == name@);
                assert(a.contains(name@));
                lemma_affected_contains(*dm, c, name@);
                lemma_affects_has_repo(*dm, c, name@);
                // the current repository was not released during this pop:
                // everything released so far sits before position i
                assert forall|w: int| 0 <= w < added.len() implies added[w] != a[i as int] by {
                    assert(added.contains(added[w]));
                    a.take(i as int).lemma_filter_contains_rev(pr, added[w]);
                    let v = choose|v: int| 0 <= v < i && a.take(i as int)[v] == added[w];
                    assert(a[v] == added[w]);
                }
            }
            let inq = vec_contains_string(&queue, name);
            proof {
                if q0.contains(name@) {
                    let k = choose|k: int| 0 <= k < q0.len() && q0[k] == name@;
                    assert(views(queue@)[k] == name@);
                    assert(views(queue@).contains(name@));
                }
                if views(queue@).contains(name@) {
                    let k = choose|k: int|
                        0 <= k < views(queue@).len() && views(queue@)[k] == name@;
                    if k >= q0.len() {
                        assert(added[k - q0.len()] == name@);
                        assert(false);
                    }
                    assert(q0.contains(name@));
                }
                assert(inq == q0.contains(name@));
            }
            let ghost qcur = views(queue@);
            if !inq {
                let ei = find_entry(dm, name);
                let pend = count_pending(dm, changed, &dm.entries[ei].deps, aff, &queue, hp);
                proof {
                    assert(qcur.take(head + 1) =~= q0.take(head + 1));
                    assert(popped_upto(qcur, head + 1) =~= popped_upto(q0, head as int + 1));
                    assert((pend as nat) == node_pending(*dm, c, name@, popped_upto(q0, head as int + 1)));
                    assert(pr(a[i as int]) == (pend == 0));
                }
                if pend == 0 {
                    queue.push(name.clone());
                    proof {
                        assert(views(queue@) =~= qcur.push(a[i as int]));
                    }
                }
            } else {
                proof {
                    assert(!pr(a[i as int]));
                }
            }
            proof {
                assert(a.take(i + 1).drop_last() =~= a.take(i as int));
                assert(a.take(i + 1) =~= a.take(i as int).push(a[i as int]));
                a.take(i as int).lemma_filter_push(a[i as int], pr);
                if pr(a[i as int]) {
                    assert(views(queue@) =~= q0 + added.push(a[i as int]));
                } else {
                    assert(views(queue@) == q0 + added);
                }
            }
            i += 1;
        }
        proof {
            assert(a.take(m as int) =~= a);
            assert(views(queue@) == kahn_queue(*dm, c, (head + 1) as nat));
        }
        head += 1;
    }
    proof {
        lemma_kahn_wf(*dm, c, head as nat);
        lemma_filter_no_dup(dm.repo_names(), affects_pred(*dm, c));
        assert forall|x: Seq<char>| views(queue@).contains(x) implies a.contains(x) by {
            let k = choose|k: int| 0 <= k < views(queue@).len() && views(queue@)[k] == x;
        }
        lemma_nodup_subset_len(views(queue@), a);
        lemma_kahn_stable(*dm, c, head as nat, a.len() as nat);
    }
    queue
}

/// Materializes the steps along the order: each repository takes as inputs
/// its declared dependencies already updated; one with no such input yields
/// no step and never enters the updated set.
fn materialize_steps(dm: &DepsMap, changed: &String, order: &Vec<String>) -> (steps: Vec<
    crate::UpdateStep,
>)
    requires
        dm.wf(),
        views(order@) == kahn_order(*dm, changed@),
    ensures
        steps_view(steps@) == plan_chain(*dm, changed@),
{
    broadcast use vstd::set::group_set_axioms;

    let ghost c = changed@;
    let ghost ko = kahn_order(*dm, c);
    let mut updated: Vec<String> = Vec::new();
    updated.push(changed.clone());
    proof {
        assert(views(updated@) =~= Seq::empty().push(c));
        lemma_push_keeps_contains(Seq::empty(), views(updated@), c);
        assert(forall|y: Seq<char>| !(Seq::<Seq<char>>::empty().contains(y)));
        assert(views(updated@).to_set() =~= Set::empty().insert(c));
    }
    let mut steps: Vec<crate::UpdateStep> = Vec::new();
    let mut i: usize = 0;
    while i < order.len()
        invariant
            c == changed@,
            dm.wf(),
            views(order@) == ko,
            ko == kahn_order(*dm, c),
            i <= order@.len(),
            steps_view(steps@) + steps_from(*dm, c, ko, i as int, views(updated@).to_set())
                == plan_chain(*dm, c),
        decreases order@.len() - i,
    {
        let name = &order[i];
        proof {
            lemma_kahn_wf(*dm, c, affected_list(*dm, c).len());
            assert(ko[i as int] == name@);
            assert(affected_list(*dm, c).contains(ko[i as int]));
            lemma_affected_contains(*dm, c, name@);
            lemma_affects_has_repo(*dm, c, name@);
        }
        let ei = find_entry(dm, name);
        let ghost uset = views(updated@).to_set();
        let ghost upred = updated_pred(uset);
        let ghost dl = views(dm.entries@[ei as int].deps@);
        let deps_len = dm.entries[ei].deps.len();
        let mut inputs: Vec<String> = Vec::new();
        let mut k: usize = 0;
        while k < deps_len
            invariant
                uset == views(updated@).to_set(),
                upred == updated_pred(uset),
                ei < dm.entries@.len(),
                dl == views(dm.entries@[ei as int].deps@),
                deps_len == dl.len(),
                k <= deps_len,
                views(inputs@) == dl.take(k as int).filter(upred),
            decreases deps_len - k,
        {
            let isin = vec_contains_string(&updated, &dm.entries[ei].deps[k]);
            let ghost dv = dl[k as int];
            let ghost in0 = views(inputs@);
            proof {
                assert(isin == views(updated@).contains(dv));
                assert(views(updated@).to_set().contains(dv) == views(updated@).contains(dv));
                assert(isin == upred(dv));
                assert(dl.take(k + 1).drop_last() =~= dl.take(k as int));
                assert(dl.take(k + 1) =~= dl.take(k as int).push(dv));
                dl.take(k as int).lemma_filter_push(dv, upred);
            }
            if isin {
                inputs.push(dm.entries[ei].deps[k].clone());
                proof {
                    assert(views(inputs@) =~= in0.push(dv));
                }
            }
            k += 1;
        }
        proof {
            assert(dl.take(deps_len as int) =~= dl);
            assert(views(inputs@) == selected_inputs(*dm, name@, uset));
        }
        let ghost ins = selected_inputs(*dm, ko[i as int], uset);
        if inputs.len() > 0 {
            let ghost s0 = steps_view(steps@);
            let ghost u0 = views(updated@);
            let step = crate::UpdateStep { repo: name.clone(), inputs };
            proof {
                assert(step.view() == (ko[i as int], ins));
            }
            steps.push(step);
            updated.push(name.clone());
            proof {
                assert(steps_view(steps@) =~= s0.push((ko[i as int], ins)));
                assert(views(updated@) =~= u0.push(ko[i as int]));
                lemma_push_keeps_contains(u0, views(updated@), ko[i as int]);
                assert(views(updated@).to_set() =~= uset.insert(ko[i as int]));
                assert(steps_from(*dm, c, ko, i as int, uset) == seq![(ko[i as int], ins)]
                    + steps_from(*dm, c, ko, i + 1, uset.insert(ko[i as int])));
                assert(s0 + (seq![(ko[i as int], ins)] + steps_from(
                    *dm,
                    c,
                    ko,
                    i + 1,
                    uset.insert(ko[i as int]),
                )) =~= steps_view(steps@) + steps_from(
                    *dm,
                    c,
                    ko,
                    i + 1,
                    views(updated@).to_set(),
                ));
            }
        } else {
            proof {
                assert(steps_from(*dm, c, ko, i as int, uset) == steps_from(
                    *dm,
                    c,
                    ko,
                    i + 1,
                    uset,
                ));
            }
        }
        i += 1;
    }
    proof {
        assert(steps_from(*dm, c, ko, i as int, views(updated@).to_set()) == Seq::<(
            Seq<char>,
            Seq<Seq<char>>,
        )>::empty());
        assert(steps_view(steps@) + Seq::<(Seq<char>, Seq<Seq<char>>)>::empty() =~= steps_view(
            steps@,
        ));
    }
    steps
}

/// Collects the affected repositories the worklist could not order.
fn collect_unresolved(dm: &DepsMap, changed: &String, aff: &Vec<String>, queue: &Vec<String>) -> (nodes: Vec<String>)
    requires
        dm.wf(),
        views(aff@) == affected_list(*dm, changed@),
        views(queue@) == kahn_order(*dm, changed@),
    ensures
        views(nodes@) == unresolved_nodes(*dm, changed@),
{
    let ghost c = changed@;
    let ghost a = affected_list(*dm, c);
    let ghost pred = unresolved_pred(*dm, c);
    let m = aff.len();
    let mut nodes: Vec<String> = Vec::new();
    let mut i: usize = 0;
    while i < m
        invariant
            c == changed@,
            dm.wf(),
            views(aff@) == a,
            a == affected_list(*dm, c),
            views(queue@) == kahn_order(*dm, c),
            m == aff@.len(),
            i <= m,
            pred == unresolved_pred(*dm, c),
            views(nodes@) == a.take(i as int).filter(pred),
        decreases m - i,
    {
        let inq = vec_contains_string(queue, &aff[i]);
        let ghost n0 = views(nodes@);
        proof {
            assert(a[i as int] == views(aff@)[i as int]);
            assert((!inq) == pred(a[i as int]));
            assert(a.take(i + 1).drop_last() =~= a.take(i as int));
            assert(a.take(i + 1) =~= a.take(i as int).push(a[i as int]));
            a.take(i as int).lemma_filter_push(a[i as int], pred);
        }
        if !inq {
            nodes.push(aff[i].clone());
            proof {
                assert(views(nodes@) =~= n0.push(a[i as int]));
            }
        }
        i += 1;
    }
    proof {
        assert(a.take(m as int) =~= a);
    }
    nodes
}

/// Compute the ordered chain of repositories to update after `changed` was
/// re-resolved and pushed.
///
/// The result equals `plan_chain` — a function of the arguments alone — so
/// planning is deterministic, and calling it twice with the same inputs
/// yields the same chain. On a dependency cycle among the affected
/// repositories it reports the unordered ones instead, and never a partial
/// chain.
pub fn compute_update_chain(changed: &str, flake_deps: &DepsMap) -> (res: Result<
    Vec<crate::UpdateStep>,
    PlanError,
>)
    requires
        flake_deps.wf(),
    ensures
        plan_ok(*flake_deps, changed@) <==> res is Ok,
        res matches Ok(chain) ==> steps_view(chain@) == plan_chain(*flake_deps, changed@),
        res matches Err(e) ==> (e matches PlanError::Cycle { nodes } && views(nodes@)
            == unresolved_nodes(*flake_deps, changed@)),
{
    let changed_owned: String = changed.to_owned();
    let disc = bfs_affected(flake_deps, &changed_owned);
    let aff = collect_affected(flake_deps, &disc, &changed_owned);
    let queue = kahn_exec(flake_deps, &changed_owned, &aff);
    if queue.len() == aff.len() {
        proof {
            assert(views(queue@).len() == queue@.len());
            assert(views(aff@).len() == aff@.len());
            assert(plan_ok(*flake_deps, changed@));
        }
        let steps = materialize_steps(flake_deps, &changed_owned, &queue);
        Ok(steps)
    } else {
        proof {
            assert(!plan_ok(*flake_deps, changed@));
        }
        let nodes = collect_unresolved(flake_deps, &changed_owned, &aff, &queue);
        Err(PlanError::Cycle { nodes })
    }
}

/// In a dependent-closed discovered set that holds all direct dependents of
/// `c`, every node of a chain out of `c` is discovered.
proof fn lemma_closed_reaches(
    dm: DepsMap,
    c: Seq<char>,
    disc: Seq<Seq<char>>,
    p: Seq<Seq<char>>,
    i: int,
)
    requires
        is_dep_path(dm, p),
        p.first() == c,
        1 <= i < p.len(),
        forall|r: Seq<char>| depends_on(dm, r, c) ==> disc.contains(r),
        forall|k: int, r: Seq<char>|
            0 <= k < disc.len() && #[trigger] depends_on(dm, r, disc[k]) ==> disc.contains(r),
    ensures
        disc.contains(p[i]),
    decreases i,
{
    if i == 1 {
        assert(depends_on(dm, p[0int + 1], p[0int]));
    } else {
        lemma_closed_reaches(dm, c, disc, p, i - 1);
        let k = choose|k: int| 0 <= k < disc.len() && disc[k] == p[i - 1];
        assert(depends_on(dm, p[(i - 1) + 1], p[i - 1]));
    }
}

} // verus!
