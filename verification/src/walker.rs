//! Commit-history traversal: the commits reachable from the current head but
//! not reachable from the exclusion ref, newest first.

use vstd::prelude::*;

verus! {

/// One commit as loaded from the repository: its parents (indices into the
/// graph), its full message, and, for each parent, the paths changed between
/// that parent's tree and the commit's tree.
pub struct CommitInfo {
    pub parents: Vec<usize>,
    pub message: String,
    pub parent_changed_paths: Vec<Vec<String>>,
}

/// A commit graph, indexed so that every parent precedes its child (the
/// order a reverse-chronological repository load naturally produces).
pub struct CommitGraph {
    pub commits: Vec<CommitInfo>,
}

/// Well-formedness: parents lie strictly below their child's index, and each
/// parent has its changed-path list.
pub open spec fn graph_wf(cs: Seq<CommitInfo>) -> bool {
    &&& (forall|i: int, k: int|
        0 <= i < cs.len() && 0 <= k < cs[i].parents@.len() ==> #[trigger] (cs[i].parents@[k] as int)
            < i)
    &&& (forall|i: int|
        0 <= i < cs.len() ==> #[trigger] (cs[i].parents@.len() as int)
            == cs[i].parent_changed_paths@.len())
}

/// Ancestry: `t` is reachable from `from` by following parent links; every
/// commit reaches itself.
pub open spec fn reachable(cs: Seq<CommitInfo>, from: int, t: int) -> bool
    decreases from,
{
    t == from || (0 <= from < cs.len() && exists|k: int|
        0 <= k < cs[from].parents@.len() && #[trigger] (cs[from].parents@[k] as int) < from
            && reachable(cs, cs[from].parents@[k] as int, t))
}

proof fn lemma_reachable_parent(cs: Seq<CommitInfo>, from: int, mid: int, k: int)
    requires
        graph_wf(cs),
        reachable(cs, from, mid),
        0 <= mid < cs.len(),
        0 <= k < cs[mid].parents@.len(),
    ensures
        reachable(cs, from, cs[mid].parents@[k] as int),
    decreases from,
{
    let p = cs[mid].parents@[k] as int;
    if mid == from {
        assert(p < from);
        assert(reachable(cs, p, p));
        assert(reachable(cs, from, p));
    } else {
        let k0 = choose|k0: int|
            0 <= k0 < cs[from].parents@.len() && #[trigger] (cs[from].parents@[k0] as int) < from
                && reachable(cs, cs[from].parents@[k0] as int, mid);
        lemma_reachable_parent(cs, cs[from].parents@[k0] as int, mid, k);
        assert(reachable(cs, from, p));
    }
}

proof fn lemma_marked_complete(cs: Seq<CommitInfo>, m: Seq<bool>, from: int, t: int)
    requires
        graph_wf(cs),
        m.len() == cs.len(),
        0 <= from < cs.len(),
        m[from],
        forall|j: int, k: int|
            0 <= j < cs.len() && m[j] && 0 <= k < cs[j].parents@.len() ==> m[(
            #[trigger] cs[j].parents@[k]) as int],
        reachable(cs, from, t),
        0 <= t < cs.len(),
    ensures
        m[t],
    decreases from,
{
    if t == from {
    } else {
        let k0 = choose|k0: int|
            0 <= k0 < cs[from].parents@.len() && #[trigger] (cs[from].parents@[k0] as int) < from
                && reachable(cs, cs[from].parents@[k0] as int, t);
        let p = cs[from].parents@[k0] as int;
        assert(m[p]);
        lemma_marked_complete(cs, m, p, t);
    }
}

fn vec_false(n: usize) -> (m: Vec<bool>)
    ensures
        m@.len() == n,
        forall|j: int| 0 <= j < n ==> !m@[j],
{
    let mut m: Vec<bool> = Vec::new();
    let mut z: usize = 0;
    while z < n
        invariant
            z <= n,
            m@.len() == z,
            forall|j: int| 0 <= j < z ==> !m@[j],
        decreases n - z,
    {
        m.push(false);
        z += 1;
    }
    m
}

fn mark_reachable(g: &CommitGraph, from: usize) -> (m: Vec<bool>)
    requires
        graph_wf(g.commits@),
        from < g.commits.len(),
    ensures
        m@.len() == g.commits@.len(),
        forall|j: int| 0 <= j < m@.len() ==> (m@[j] <==> reachable(g.commits@, from as int, j)),
{
    let ghost cs = g.commits@;
    let n = g.commits.len();
    let mut m = vec_false(n);
    m[from] = true;
    let mut i: usize = from + 1;
    while i > 0
        invariant
            cs == g.commits@,
            graph_wf(cs),
            from < cs.len(),
            i <= from + 1,
            m@.len() == cs.len(),
            m@[from as int],
            forall|j: int| 0 <= j < cs.len() && m@[j] ==> reachable(cs, from as int, j),
            forall|j: int, k: int|
                i <= j < cs.len() && m@[j] && 0 <= k < cs[j].parents@.len() ==> m@[(
                #[trigger] cs[j].parents@[k]) as int],
        decreases i,
    {
        i -= 1;
        if m[i] {
            let npar = g.commits[i].parents.len();
            let mut k: usize = 0;
            while k < npar
                invariant
                    cs == g.commits@,
                    graph_wf(cs),
                    from < cs.len(),
                    i <= from,
                    npar == cs[i as int].parents@.len(),
                    k <= npar,
                    m@.len() == cs.len(),
                    m@[from as int],
                    m@[i as int],
                    forall|j: int| 0 <= j < cs.len() && m@[j] ==> reachable(cs, from as int, j),
                    forall|j: int, kk: int|
                        i + 1 <= j < cs.len() && m@[j] && 0 <= kk < cs[j].parents@.len() ==> m@[(
                        #[trigger] cs[j].parents@[kk]) as int],
                    forall|kk: int| 0 <= kk < k ==> m@[(#[trigger] cs[i as int].parents@[kk]) as int],
                decreases npar - k,
            {
                let p = g.commits[i].parents[k];
                proof {
                    assert((cs[i as int].parents@[k as int] as int) < i as int);
                    lemma_reachable_parent(cs, from as int, i as int, k as int);
                }
                m[p] = true;
                k += 1;
            }
        }
    }
    proof {
        assert forall|j: int| 0 <= j < m@.len() implies (m@[j] <==> reachable(
            cs,
            from as int,
            j,
        )) by {
            if reachable(cs, from as int, j) {
                lemma_marked_complete(cs, m@, from as int, j);
            }
        }
    }
    m
}

/// The exclusion as a mathematical value.
pub open spec fn as_int_opt(e: Option<usize>) -> Option<int> {
    match e {
        Some(x) => Some(x as int),
        None => None,
    }
}

/// Emission condition: reachable from the head and, when an exclusion ref is
/// given, not reachable from it.
pub open spec fn emit_cond(cs: Seq<CommitInfo>, head: int, excl: Option<int>, i: int) -> bool {
    reachable(cs, head, i) && match excl {
        Some(e) => !reachable(cs, e, i),
        None => true,
    }
}

/// The emitted order: the qualifying indices below `n`, highest (newest)
/// first.
pub open spec fn emit_seq(cs: Seq<CommitInfo>, head: int, excl: Option<int>, n: int) -> Seq<usize>
    decreases n,
{
    if n <= 0 {
        Seq::empty()
    } else if emit_cond(cs, head, excl, n - 1) {
        seq![(n - 1) as usize] + emit_seq(cs, head, excl, n - 1)
    } else {
        emit_seq(cs, head, excl, n - 1)
    }
}

/// Every emitted index is in bounds and qualifies for emission.
pub proof fn lemma_emit_seq_elem(cs: Seq<CommitInfo>, head: int, excl: Option<int>, n: int, a: int)
    requires
        n <= usize::MAX as int,
        0 <= a < emit_seq(cs, head, excl, n).len(),
    ensures
        0 <= (emit_seq(cs, head, excl, n)[a] as int) < n,
        emit_cond(cs, head, excl, emit_seq(cs, head, excl, n)[a] as int),
    decreases n,
{
    if n > 0 {
        let es = emit_seq(cs, head, excl, n);
        let prev = emit_seq(cs, head, excl, n - 1);
        if emit_cond(cs, head, excl, n - 1) {
            if a > 0 {
                assert(es[a] == prev[a - 1]);
                lemma_emit_seq_elem(cs, head, excl, n - 1, a - 1);
            } else {
                assert(es[0] == (n - 1) as usize);
            }
        } else {
            lemma_emit_seq_elem(cs, head, excl, n - 1, a);
        }
    }
}

/// The walker never emits a commit reachable from the exclusion ref.
pub proof fn lemma_never_emits_excluded(
    cs: Seq<CommitInfo>,
    head: int,
    e: int,
    n: int,
    a: int,
)
    requires
        n <= usize::MAX as int,
        0 <= a < emit_seq(cs, head, Some(e), n).len(),
    ensures
        !reachable(cs, e, emit_seq(cs, head, Some(e), n)[a] as int),
        reachable(cs, head, emit_seq(cs, head, Some(e), n)[a] as int),
{
    lemma_emit_seq_elem(cs, head, Some(e), n, a);
}

/// Emitted indices descend strictly, so every commit appears before any of
/// its ancestors.
pub proof fn lemma_emit_seq_desc(
    cs: Seq<CommitInfo>,
    head: int,
    excl: Option<int>,
    n: int,
    a: int,
    b: int,
)
    requires
        n <= usize::MAX as int,
        0 <= a < b < emit_seq(cs, head, excl, n).len(),
    ensures
        (emit_seq(cs, head, excl, n)[a] as int) > (emit_seq(cs, head, excl, n)[b] as int),
    decreases n,
{
    if n > 0 {
        let es = emit_seq(cs, head, excl, n);
        let prev = emit_seq(cs, head, excl, n - 1);
        if emit_cond(cs, head, excl, n - 1) {
            if a == 0 {
                assert(es[0] == (n - 1) as usize);
                assert(es[b] == prev[b - 1]);
                lemma_emit_seq_elem(cs, head, excl, n - 1, b - 1);
            } else {
                assert(es[a] == prev[a - 1]);
                assert(es[b] == prev[b - 1]);
                lemma_emit_seq_desc(cs, head, excl, n - 1, a - 1, b - 1);
            }
        } else {
            lemma_emit_seq_desc(cs, head, excl, n - 1, a, b);
        }
    }
}

/// Walks the history: the commits reachable from `head` and not reachable
/// from the exclusion commit (when one is given), newest first. This is a
/// topological order: every commit is emitted before each of its parents.
pub fn walk(g: &CommitGraph, head: usize, excl: Option<usize>) -> (r: Vec<usize>)
    requires
        graph_wf(g.commits@),
        head < g.commits.len(),
        excl matches Some(e) ==> e < g.commits.len(),
    ensures
        r@ == emit_seq(g.commits@, head as int, as_int_opt(excl), g.commits@.len() as int),
        forall|a: int|
            0 <= a < r@.len() ==> (#[trigger] r@[a]) < g.commits@.len() && emit_cond(
                g.commits@,
                head as int,
                as_int_opt(excl),
                r@[a] as int,
            ),
        forall|a: int, b: int| 0 <= a < b < r@.len() ==> r@[a] > r@[b],
        forall|a: int, b: int|
            #![trigger r@[a], r@[b]]
            0 <= a < r@.len() && 0 <= b < r@.len() && g.commits@[r@[a] as int].parents@.contains(
                r@[b],
            ) ==> a < b,
{
    let ghost cs = g.commits@;
    let ghost ex = as_int_opt(excl);
    let n = g.commits.len();
    let inc = mark_reachable(g, head);
    let exc = match excl {
        Some(e) => mark_reachable(g, e),
        None => vec_false(n),
    };
    let mut r: Vec<usize> = Vec::new();
    let mut i: usize = n;
    proof {
        assert(Seq::<usize>::empty() + emit_seq(cs, head as int, ex, n as int) =~= emit_seq(
            cs,
            head as int,
            ex,
            n as int,
        ));
    }
    while i > 0
        invariant
            cs == g.commits@,
            ex == as_int_opt(excl),
            n == cs.len(),
            i <= n,
            inc@.len() == n,
            exc@.len() == n,
            forall|j: int| 0 <= j < n ==> (inc@[j] <==> reachable(cs, head as int, j)),
            forall|j: int|
                0 <= j < n ==> (exc@[j] <==> (match ex {
                    Some(e) => reachable(cs, e, j),
                    None => false,
                })),
            emit_seq(cs, head as int, ex, n as int) == r@ + emit_seq(cs, head as int, ex, i as int),
        decreases i,
    {
        i -= 1;
        if inc[i] && !exc[i] {
            proof {
                assert(emit_cond(cs, head as int, ex, i as int));
            }
            let ghost old_r = r@;
            r.push(i);
            proof {
                assert(old_r + (seq![i as usize] + emit_seq(cs, head as int, ex, i as int)) =~= r@
                    + emit_seq(cs, head as int, ex, i as int));
            }
        } else {
            proof {
                assert(!emit_cond(cs, head as int, ex, i as int));
            }
        }
    }
    proof {
        assert(emit_seq(cs, head as int, ex, 0) =~= Seq::<usize>::empty());
        assert(r@ + Seq::<usize>::empty() =~= r@);
        assert forall|a: int| 0 <= a < r@.len() implies (#[trigger] r@[a]) < cs.len() && emit_cond(
            cs,
            head as int,
            ex,
            r@[a] as int,
        ) by {
            lemma_emit_seq_elem(cs, head as int, ex, n as int, a);
        }
        assert forall|a: int, b: int| 0 <= a < b < r@.len() implies r@[a] > r@[b] by {
            lemma_emit_seq_desc(cs, head as int, ex, n as int, a, b);
        }
        assert forall|a: int, b: int|
            #![trigger r@[a], r@[b]]
            0 <= a < r@.len() && 0 <= b < r@.len() && cs[r@[a] as int].parents@.contains(
                r@[b],
            ) implies a < b by {
            let idx = choose|idx: int|
                0 <= idx < cs[r@[a] as int].parents@.len() && cs[r@[a] as int].parents@[idx] == r@[b];
            assert((cs[r@[a] as int].parents@[idx] as int) < r@[a] as int);
            if b <= a {
                if b < a {
                    lemma_emit_seq_desc(cs, head as int, ex, n as int, b, a);
                }
                assert(false);
            }
        }
    }
    r
}

} // verus!
