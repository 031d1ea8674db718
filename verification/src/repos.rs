//! Repository bookkeeping decisions: classifying a working tree's status,
//! summarizing statuses, and assembling sorted, duplicate-free repository
//! name lists from discovery, extras and exclusions.
//!
//! Names are ordered lexicographically by unicode scalar value, the order
//! the standard string comparison uses.

use vstd::prelude::*;
use vstd::string::StrSliceExecFns;

use crate::graph::views;

verus! {

/// Status of a single repository in a workspace.
#[derive(Clone, Copy, PartialEq, Eq, Structural)]
pub enum RepoStatus {
    /// Exists and has no uncommitted changes.
    Clean,
    /// Exists but has uncommitted changes.
    Dirty,
    /// Expected but not cloned.
    Missing,
    /// On disk but not in the configuration.
    Unknown,
}

/// A repository name with its status.
pub struct RepoEntry {
    pub name: String,
    pub status: RepoStatus,
}

/// Lexicographic order on character sequences by unicode scalar value.
pub open spec fn lex_le(a: Seq<char>, b: Seq<char>) -> bool
    decreases a.len(),
{
    if a.len() == 0 {
        true
    } else if b.len() == 0 {
        false
    } else if a[0] < b[0] {
        true
    } else if b[0] < a[0] {
        false
    } else {
        lex_le(a.drop_first(), b.drop_first())
    }
}

/// Strict version of the order.
pub open spec fn lex_lt(a: Seq<char>, b: Seq<char>) -> bool {
    lex_le(a, b) && a != b
}

/// Any two sequences are ordered one way or the other.
pub proof fn lemma_lex_total(a: Seq<char>, b: Seq<char>)
    ensures
        lex_le(a, b) || lex_le(b, a),
    decreases a.len(),
{
    if a.len() > 0 && b.len() > 0 {
        if !(a[0] < b[0]) && !(b[0] < a[0]) {
            assert(a[0] == b[0]);
            lemma_lex_total(a.drop_first(), b.drop_first());
            assert(lex_le(a, b) == lex_le(a.drop_first(), b.drop_first()));
            assert(lex_le(b, a) == lex_le(b.drop_first(), a.drop_first()));
        }
    }
}

/// Mutual order is equality.
pub proof fn lemma_lex_antisym(a: Seq<char>, b: Seq<char>)
    requires
        lex_le(a, b),
        lex_le(b, a),
    ensures
        a == b,
    decreases a.len(),
{
    if a.len() == 0 {
        assert(b.len() == 0);
        assert(a =~= b);
    } else {
        assert(b.len() > 0);
        if a[0] < b[0] {
            assert(!lex_le(b, a));
        }
        if b[0] < a[0] {
            assert(!lex_le(a, b));
        }
        assert(a[0] == b[0]);
        assert(lex_le(a, b) == lex_le(a.drop_first(), b.drop_first()));
        assert(lex_le(b, a) == lex_le(b.drop_first(), a.drop_first()));
        lemma_lex_antisym(a.drop_first(), b.drop_first());
        assert forall|i: int| 0 <= i < a.len() implies a[i] == b[i] by {
            if i > 0 {
                assert(a.drop_first()[i - 1] == b.drop_first()[i - 1]);
            }
        }
        assert(a =~= b);
    }
}

/// The order composes.
pub proof fn lemma_lex_trans(a: Seq<char>, b: Seq<char>, c: Seq<char>)
    requires
        lex_le(a, b),
        lex_le(b, c),
    ensures
        lex_le(a, c),
    decreases a.len(),
{
    if a.len() > 0 {
        assert(b.len() > 0);
        assert(c.len() > 0);
        if !(a[0] < c[0]) {
            assert(!(b[0] < a[0]) && !(c[0] < b[0]));
            assert(!(c[0] < a[0]));
            assert(a[0] == b[0] && b[0] == c[0]);
            assert(lex_le(a, b) == lex_le(a.drop_first(), b.drop_first()));
            assert(lex_le(b, c) == lex_le(b.drop_first(), c.drop_first()));
            lemma_lex_trans(a.drop_first(), b.drop_first(), c.drop_first());
            assert(lex_le(a, c) == lex_le(a.drop_first(), c.drop_first()));
        }
    }
}

/// Strictness composes with the order on the right.
proof fn lemma_lex_lt_le(a: Seq<char>, b: Seq<char>, c: Seq<char>)
    requires
        lex_lt(a, b),
        lex_le(b, c),
    ensures
        lex_lt(a, c),
{
    lemma_lex_trans(a, b, c);
    if a == c {
        lemma_lex_antisym(b, c);
    }
}

/// Compares two strings in the lexicographic order.
fn str_le(a: &str, b: &str) -> (r: bool)
    ensures
        r == lex_le(a@, b@),
{
    let la = a.unicode_len();
    let lb = b.unicode_len();
    let n = if la < lb {
        la
    } else {
        lb
    };
    let mut i: usize = 0;
    proof {
        assert(a@.skip(0) =~= a@);
        assert(b@.skip(0) =~= b@);
    }
    while i < n
        invariant
            la == a@.len(),
            lb == b@.len(),
            n <= la,
            n <= lb,
            i <= n,
            lex_le(a@, b@) == lex_le(a@.skip(i as int), b@.skip(i as int)),
        decreases n - i,
    {
        let ca = a.get_char(i);
        let cb = b.get_char(i);
        let ghost sa = a@.skip(i as int);
        let ghost sb = b@.skip(i as int);
        proof {
            assert(sa.len() > 0 && sb.len() > 0);
            assert(sa[0int] == a@[i as int] && sb[0int] == b@[i as int]);
        }
        if ca < cb {
            return true;
        }
        if cb < ca {
            return false;
        }
        proof {
            assert(sa.drop_first() =~= a@.skip(i + 1));
            assert(sb.drop_first() =~= b@.skip(i + 1));
        }
        i += 1;
    }
    proof {
        if la <= lb {
            assert(a@.skip(i as int).len() == 0);
        } else {
            assert(b@.skip(i as int).len() == 0);
            assert(a@.skip(i as int).len() > 0);
        }
    }
    la <= lb
}

/// A strictly increasing name list: sorted with no duplicates.
pub open spec fn sorted_strict(s: Seq<Seq<char>>) -> bool {
    forall|i: int, j: int| 0 <= i < j < s.len() ==> lex_lt(#[trigger] s[i], #[trigger] s[j])
}

/// Compares two strings in the strict order.
fn str_lt(a: &String, b: &String) -> (r: bool)
    ensures
        r == lex_lt(a@, b@),
{
    if *a == *b {
        false
    } else {
        str_le(a.as_str(), b.as_str())
    }
}

/// Inserts `x` into a strictly sorted list, keeping it strictly sorted;
/// a name already present is not duplicated.
fn insert_sorted(v: &mut Vec<String>, x: String)
    requires
        sorted_strict(views(old(v)@)),
    ensures
        sorted_strict(views(final(v)@)),
        forall|y: Seq<char>|
            #[trigger] views(final(v)@).contains(y) <==> views(old(v)@).contains(y) || y == x@,
{
    let mut k: usize = 0;
    while k < v.len() && str_lt(&v[k], &x)
        invariant
            k <= v@.len(),
            sorted_strict(views(v@)),
            v@ == old(v)@,
            forall|j: int| 0 <= j < k ==> lex_lt(#[trigger] views(v@)[j], x@),
        decreases v@.len() - k,
    {
        k += 1;
    }
    let ghost vs = views(v@);
    if k < v.len() && v[k] == x {
        proof {
            assert(vs[k as int] == x@);
            assert(vs.contains(x@));
        }
        return ;
    }
    proof {
        // everything at or after the insertion point is strictly above `x`
        if k < vs.len() {
            lemma_lex_total(vs[k as int], x@);
            assert(lex_lt(x@, vs[k as int]));
        }
    }
    v.insert(k, x);
    proof {
        let nv = views(v@);
        assert(nv =~= vs.insert(k as int, x@));
        assert forall|i: int, j: int| 0 <= i < j < nv.len() implies lex_lt(
            #[trigger] nv[i],
            #[trigger] nv[j],
        ) by {
            if i == k {
                // x against a later element
                assert(nv[j] == vs[j - 1]);
                if j - 1 == k {
                    assert(lex_lt(x@, vs[k as int]));
                } else {
                    assert(lex_lt(vs[k as int], vs[j - 1]));
                    assert(lex_lt(x@, vs[k as int]));
                    lemma_lex_lt_le(x@, vs[k as int], vs[j - 1]);
                }
            } else if j == k {
                // an earlier element against x
                assert(nv[i] == vs[i]);
                assert(lex_lt(vs[i], x@));
            } else if i < k && j > k {
                assert(nv[i] == vs[i] && nv[j] == vs[j - 1]);
                if j - 1 == i {
                    assert(lex_lt(vs[i], x@));
                    assert(lex_lt(x@, vs[k as int]));
                    assert(i == k);
                    assert(false);
                } else {
                    assert(lex_lt(vs[i], vs[j - 1]));
                }
            } else if j < k {
                assert(nv[i] == vs[i] && nv[j] == vs[j]);
            } else {
                assert(nv[i] == vs[i - 1] && nv[j] == vs[j - 1]);
                assert(lex_lt(vs[i - 1], vs[j - 1]));
            }
        }
        assert forall|y: Seq<char>| #[trigger] nv.contains(y) implies vs.contains(y) || y
            == x@ by {
            let w = choose|w: int| 0 <= w < nv.len() && nv[w] == y;
            if w < k {
                assert(vs[w] == y);
            } else if w > k {
                assert(vs[w - 1] == y);
            }
        }
        assert forall|y: Seq<char>| vs.contains(y) implies nv.contains(y) by {
            let w = choose|w: int| 0 <= w < vs.len() && vs[w] == y;
            if w < k {
                assert(nv[w] == y);
            } else {
                assert(nv[w + 1] == y);
            }
        }
        assert(nv[k as int] == x@);
        assert(nv.contains(x@));
    }
}

/// Whether `x` occurs among the strings of `v`.
fn contains_string(v: &Vec<String>, x: &String) -> (r: bool)
    ensures
        r == views(v@).contains(x@),
{
    let mut i: usize = 0;
    while i < v.len()
        invariant
            i <= v@.len(),
            forall|k: int| 0 <= k < i ==> views(v@)[k] != x@,
        decreases v@.len() - i,
    {
        if v[i] == *x {
            proof {
                assert(views(v@)[i as int] == x@);
            }
            return true;
        }
        i += 1;
    }
    false
}

/// The full repository list of a workspace: the discovered names and the
/// configured extras, without the excluded ones, each name once, in
/// lexicographic order.
pub fn resolve_repo_list(discovered: &Vec<String>, extras: &Vec<String>, exclude: &Vec<String>) -> (r: Vec<String>)
    ensures
        sorted_strict(views(r@)),
        forall|y: Seq<char>|
            #[trigger] views(r@).contains(y) <==> ((views(discovered@).contains(y) || views(
                extras@,
            ).contains(y)) && !views(exclude@).contains(y)),
{
    let mut r: Vec<String> = Vec::new();
    let mut i: usize = 0;
    while i < discovered.len()
        invariant
            i <= discovered@.len(),
            sorted_strict(views(r@)),
            forall|y: Seq<char>|
                #[trigger] views(r@).contains(y) <==> (views(discovered@).take(i as int).contains(
                    y,
                ) && !views(exclude@).contains(y)),
        decreases discovered@.len() - i,
    {
        let ghost pre = views(r@);
        let ghost dv = views(discovered@)[i as int];
        let excluded = contains_string(exclude, &discovered[i]);
        if !excluded {
            insert_sorted(&mut r, discovered[i].clone());
        }
        proof {
            assert forall|y: Seq<char>| #[trigger] views(discovered@).take(i + 1).contains(y)
                implies views(discovered@).take(i as int).contains(y) || y == dv by {
                let w = choose|w: int|
                    0 <= w < i + 1 && #[trigger] views(discovered@).take(i + 1)[w] == y;
                if w < i {
                    assert(views(discovered@).take(i as int)[w] == y);
                }
            }
            assert forall|y: Seq<char>| views(discovered@).take(i as int).contains(y) implies
                views(discovered@).take(i + 1).contains(y) by {
                let w = choose|w: int|
                    0 <= w < i && #[trigger] views(discovered@).take(i as int)[w] == y;
                assert(views(discovered@).take(i + 1)[w] == y);
            }
            assert(views(discovered@).take(i + 1)[i as int] == dv);
            assert(views(discovered@).take(i + 1).contains(dv));
        }
        i += 1;
    }
    proof {
        assert(views(discovered@).take(discovered@.len() as int) =~= views(discovered@));
    }
    let mut j: usize = 0;
    while j < extras.len()
        invariant
            j <= extras@.len(),
            sorted_strict(views(r@)),
            forall|y: Seq<char>|
                #[trigger] views(r@).contains(y) <==> ((views(discovered@).contains(y) || views(
                    extras@,
                ).take(j as int).contains(y)) && !views(exclude@).contains(y)),
        decreases extras@.len() - j,
    {
        let ghost ev = views(extras@)[j as int];
        let excluded = contains_string(exclude, &extras[j]);
        if !excluded {
            insert_sorted(&mut r, extras[j].clone());
        }
        proof {
            assert forall|y: Seq<char>| #[trigger] views(extras@).take(j + 1).contains(y) implies
                views(extras@).take(j as int).contains(y) || y == ev by {
                let w = choose|w: int|
                    0 <= w < j + 1 && #[trigger] views(extras@).take(j + 1)[w] == y;
                if w < j {
                    assert(views(extras@).take(j as int)[w] == y);
                }
            }
            assert forall|y: Seq<char>| views(extras@).take(j as int).contains(y) implies views(
                extras@,
            ).take(j + 1).contains(y) by {
                let w = choose|w: int|
                    0 <= w < j && #[trigger] views(extras@).take(j as int)[w] == y;
                assert(views(extras@).take(j + 1)[w] == y);
            }
            assert(views(extras@).take(j + 1)[j as int] == ev);
            assert(views(extras@).take(j + 1).contains(ev));
        }
        j += 1;
    }
    proof {
        assert(views(extras@).take(extras@.len() as int) =~= views(extras@));
    }
    r
}

/// Classifies one expected repository from what the caller observed of its
/// working tree: missing when it does not exist, dirty when it has
/// uncommitted changes, clean otherwise.
pub fn classify_repo(exists: bool, dirty: bool) -> (s: RepoStatus)
    ensures
        s == (if !exists {
            RepoStatus::Missing
        } else if dirty {
            RepoStatus::Dirty
        } else {
            RepoStatus::Clean
        }),
{
    if !exists {
        RepoStatus::Missing
    } else if dirty {
        RepoStatus::Dirty
    } else {
        RepoStatus::Clean
    }
}

/// How many entries carry the given status.
pub open spec fn count_status(s: Seq<RepoEntry>, st: RepoStatus) -> nat
    decreases s.len(),
{
    if s.len() == 0 {
        0
    } else {
        count_status(s.drop_last(), st) + if s.last().status == st {
            1nat
        } else {
            0nat
        }
    }
}

/// Counts the clean, dirty, missing and unknown entries, in that order.
pub fn status_counts(entries: &Vec<RepoEntry>) -> (r: (usize, usize, usize, usize))
    ensures
        r.0 as nat == count_status(entries@, RepoStatus::Clean),
        r.1 as nat == count_status(entries@, RepoStatus::Dirty),
        r.2 as nat == count_status(entries@, RepoStatus::Missing),
        r.3 as nat == count_status(entries@, RepoStatus::Unknown),
{
    let mut clean: usize = 0;
    let mut dirty: usize = 0;
    let mut missing: usize = 0;
    let mut unknown: usize = 0;
    let mut i: usize = 0;
    while i < entries.len()
        invariant
            i <= entries@.len(),
            clean as nat == count_status(entries@.take(i as int), RepoStatus::Clean),
            dirty as nat == count_status(entries@.take(i as int), RepoStatus::Dirty),
            missing as nat == count_status(entries@.take(i as int), RepoStatus::Missing),
            unknown as nat == count_status(entries@.take(i as int), RepoStatus::Unknown),
            clean + dirty + missing + unknown == i,
        decreases entries@.len() - i,
    {
        proof {
            assert(entries@.take(i + 1).drop_last() =~= entries@.take(i as int));
            assert(entries@.take(i + 1).last() == entries@[i as int]);
        }
        match entries[i].status {
            RepoStatus::Clean => clean += 1,
            RepoStatus::Dirty => dirty += 1,
            RepoStatus::Missing => missing += 1,
            RepoStatus::Unknown => unknown += 1,
        }
        i += 1;
    }
    proof {
        assert(entries@.take(entries@.len() as int) =~= entries@);
    }
    (clean, dirty, missing, unknown)
}

/// Whether a name is hidden: it starts with a dot.
pub open spec fn is_hidden(name: Seq<char>) -> bool {
    name.len() > 0 && name[0] == '.'
}

/// The on-disk directory names that belong to no expected repository:
/// hidden names and expected names dropped, the rest sorted, each once.
pub fn unknown_repo_names(on_disk: &Vec<String>, expected: &Vec<String>) -> (r: Vec<String>)
    ensures
        sorted_strict(views(r@)),
        forall|y: Seq<char>|
            #[trigger] views(r@).contains(y) <==> (views(on_disk@).contains(y) && !views(
                expected@,
            ).contains(y) && !is_hidden(y)),
{
    let mut r: Vec<String> = Vec::new();
    let mut i: usize = 0;
    while i < on_disk.len()
        invariant
            i <= on_disk@.len(),
            sorted_strict(views(r@)),
            forall|y: Seq<char>|
                #[trigger] views(r@).contains(y) <==> (views(on_disk@).take(i as int).contains(y)
                    && !views(expected@).contains(y) && !is_hidden(y)),
        decreases on_disk@.len() - i,
    {
        let ghost dv = views(on_disk@)[i as int];
        let name = &on_disk[i];
        let hidden = name.unicode_len() > 0 && name.as_str().get_char(0) == '.';
        proof {
            assert(hidden == is_hidden(dv));
        }
        if !hidden && !contains_string(expected, name) {
            insert_sorted(&mut r, name.clone());
        }
        proof {
            assert forall|y: Seq<char>| #[trigger] views(on_disk@).take(i + 1).contains(y) implies
                views(on_disk@).take(i as int).contains(y) || y == dv by {
                let w = choose|w: int|
                    0 <= w < i + 1 && #[trigger] views(on_disk@).take(i + 1)[w] == y;
                if w < i {
                    assert(views(on_disk@).take(i as int)[w] == y);
                }
            }
            assert forall|y: Seq<char>| views(on_disk@).take(i as int).contains(y) implies views(
                on_disk@,
            ).take(i + 1).contains(y) by {
                let w = choose|w: int|
                    0 <= w < i && #[trigger] views(on_disk@).take(i as int)[w] == y;
                assert(views(on_disk@).take(i + 1)[w] == y);
            }
            assert(views(on_disk@).take(i + 1)[i as int] == dv);
            assert(views(on_disk@).take(i + 1).contains(dv));
        }
        i += 1;
    }
    proof {
        assert(views(on_disk@).take(on_disk@.len() as int) =~= views(on_disk@));
    }
    r
}

/// The active repositories of a discovery result: archived ones dropped,
/// the names sorted, each once.
pub fn select_active_repos(found: &Vec<(String, bool)>) -> (r: Vec<String>)
    ensures
        sorted_strict(views(r@)),
        forall|y: Seq<char>|
            #[trigger] views(r@).contains(y) <==> exists|k: int|
                0 <= k < found@.len() && (#[trigger] found@[k]).0@ == y && !found@[k].1,
{
    let mut r: Vec<String> = Vec::new();
    let mut i: usize = 0;
    while i < found.len()
        invariant
            i <= found@.len(),
            sorted_strict(views(r@)),
            forall|y: Seq<char>|
                #[trigger] views(r@).contains(y) <==> exists|k: int|
                    0 <= k < i && (#[trigger] found@[k]).0@ == y && !found@[k].1,
        decreases found@.len() - i,
    {
        let ghost r0 = views(r@);
        let ghost fv = found@[i as int].0@;
        let archived = found[i].1;
        if !archived {
            insert_sorted(&mut r, found[i].0.clone());
        }
        proof {
            assert forall|y: Seq<char>| #[trigger] views(r@).contains(y) implies exists|k: int|
                0 <= k < i + 1 && (#[trigger] found@[k]).0@ == y && !found@[k].1 by {
                if r0.contains(y) {
                    let k = choose|k: int|
                        0 <= k < i && (#[trigger] found@[k]).0@ == y && !found@[k].1;
                    assert(0 <= k < i + 1 && found@[k].0@ == y && !found@[k].1);
                } else {
                    assert(!archived && y == fv);
                    assert((found@[i as int]).0@ == y && !found@[i as int].1);
                }
            }
            assert forall|y: Seq<char>|
                (exists|k: int| 0 <= k < i + 1 && (#[trigger] found@[k]).0@ == y && !found@[k].1)
                implies views(r@).contains(y) by {
                let k = choose|k: int|
                    0 <= k < i + 1 && (#[trigger] found@[k]).0@ == y && !found@[k].1;
                if k < i {
                    assert(r0.contains(y));
                } else {
                    assert(y == fv && !archived);
                }
            }
        }
        i += 1;
    }
    r
}

/// Whether `needle` occurs in `hay` as a contiguous run of characters.
pub open spec fn contains_sub(hay: Seq<char>, needle: Seq<char>) -> bool {
    exists|i: int|
        0 <= i <= hay.len() - needle.len() && #[trigger] hay.subrange(i, i + needle.len())
            == needle
}

/// Whether the pattern matches at position `i`.
fn match_at(msg: &str, pat: &str, i: usize) -> (r: bool)
    requires
        i + pat@.len() <= msg@.len(),
    ensures
        r == (msg@.subrange(i as int, i + pat@.len()) == pat@),
{
    let n = msg.unicode_len();
    let m = pat.unicode_len();
    let mut j: usize = 0;
    while j < m
        invariant
            n == msg@.len(),
            m == pat@.len(),
            i + m <= msg@.len(),
            j <= m,
            forall|jj: int| 0 <= jj < j ==> msg@[i + jj] == pat@[jj],
        decreases m - j,
    {
        if msg.get_char(i + j) != pat.get_char(j) {
            proof {
                assert(msg@.subrange(i as int, i + pat@.len())[j as int] != pat@[j as int]);
            }
            return false;
        }
        j += 1;
    }
    proof {
        assert(msg@.subrange(i as int, i + pat@.len()) =~= pat@);
    }
    true
}

/// Whether an error's rendered text reports the hosting provider's
/// not-found reply, the cue to retry discovery against the user endpoint.
pub fn is_not_found(msg: &str) -> (r: bool)
    ensures
        r == contains_sub(msg@, "404 Not Found"@),
{
    let pat: &str = "404 Not Found";
    proof {
        reveal_strlit("404 Not Found");
    }
    let n = msg.unicode_len();
    let m = pat.unicode_len();
    if m > n {
        proof {
            assert(!contains_sub(msg@, pat@));
        }
        return false;
    }
    let mut i: usize = 0;
    while i <= n - m
        invariant
            m == pat@.len(),
            n == msg@.len(),
            m <= n,
            i <= n - m + 1,
            pat@ == "404 Not Found"@,
            pat@.len() >= 1,
            forall|ii: int|
                0 <= ii < i ==> #[trigger] msg@.subrange(ii, ii + pat@.len()) != pat@,
        decreases n - m + 1 - i,
    {
        if match_at(msg, pat, i) {
            proof {
                assert(contains_sub(msg@, pat@));
            }
            return true;
        }
        i += 1;
    }
    proof {
        assert forall|ii: int| 0 <= ii <= msg@.len() - pat@.len() implies #[trigger] msg@.subrange(
            ii,
            ii + pat@.len(),
        ) != pat@ by {
            assert(ii < i);
        }
    }
    false
}

} // verus!
