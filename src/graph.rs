//! The remote commit graph, and the sets of commits a walk from the remote
//! tip reaches.
use vstd::prelude::*;

verus! {

/// A remote commit. Its parents are indices into the graph.
pub struct RemoteCommit {
    pub id: String,
    pub parents: Vec<usize>,
    /// Committer timestamp, in seconds.
    pub time: i64,
}

/// Remote commits, each listed after all its parents: a parent's index is
/// below its child's. That order is what makes the graph acyclic.
pub struct Graph {
    pub commits: Vec<RemoteCommit>,
}

pub open spec fn parents_of(g: Graph, i: int) -> Seq<usize> {
    g.commits@[i].parents@
}

impl Graph {
    /// Every parent index is below its child's index.
    pub open spec fn wf(&self) -> bool {
        forall|i: int, k: int|
            0 <= i < self.commits@.len() && 0 <= k < self.commits@[i].parents@.len()
                ==> #[trigger] self.commits@[i].parents@[k] < i
    }
}

/// Whether `i` is in the smallest set that holds each `allowed` seed and,
/// with an `allowed` commit, each of its `allowed` parents: the commits that
/// a walk from the seeds reaches without leaving `allowed`.
pub open spec fn reached(g: Graph, seed: Seq<bool>, allowed: Seq<bool>, i: int) -> bool
    decreases g.commits@.len() - i,
{
    &&& 0 <= i < g.commits@.len()
    &&& allowed[i]
    &&& (seed[i] || exists|j: int|
        i < j < g.commits@.len() && #[trigger] parents_of(g, j).contains(i as usize) && reached(
            g,
            seed,
            allowed,
            j,
        ))
}

pub proof fn lemma_push_contains(s: Seq<usize>, p: usize, x: usize)
    ensures
        s.push(p).contains(x) == (s.contains(x) || x == p),
{
    let s1 = s.push(p);
    if s.contains(x) {
        let w = choose|w: int| 0 <= w < s.len() && s[w] == x;
        assert(s1[w] == x);
    }
    if x == p {
        assert(s1[s.len() as int] == x);
    }
    if s1.contains(x) && x != p {
        let w = choose|w: int| 0 <= w < s1.len() && s1[w] == x;
        assert(w < s.len());
        assert(s[w] == x);
    }
}

/// Computes `reached` for every commit, from the last commit down.
pub fn reach(g: &Graph, seed: &Vec<bool>, allowed: &Vec<bool>) -> (r: Vec<bool>)
    requires
        g.wf(),
        seed@.len() == g.commits@.len(),
        allowed@.len() == g.commits@.len(),
    ensures
        r@.len() == g.commits@.len(),
        forall|k: int| 0 <= k < r@.len() ==> r@[k] == reached(*g, seed@, allowed@, k),
{
    let n = g.commits.len();
    let mut out: Vec<bool> = Vec::new();
    let mut marked: Vec<bool> = Vec::new();
    let mut z: usize = 0;
    while z < n
        invariant
            z <= n,
            out@.len() == z,
            marked@.len() == z,
            forall|k: int| 0 <= k < z ==> !out@[k] && !marked@[k],
        decreases n - z,
    {
        out.push(false);
        marked.push(false);
        z = z + 1;
    }
    let mut i: usize = n;
    while i > 0
        invariant
            g.wf(),
            n == g.commits@.len(),
            seed@.len() == n,
            allowed@.len() == n,
            i <= n,
            out@.len() == n,
            marked@.len() == n,
            forall|k: int| i <= k < n ==> out@[k] == reached(*g, seed@, allowed@, k),
            forall|k: int|
                0 <= k < i ==> marked@[k] == exists|j: int|
                    i <= j < n && #[trigger] parents_of(*g, j).contains(k as usize) && reached(
                        *g,
                        seed@,
                        allowed@,
                        j,
                    ),
        decreases i,
    {
        i = i - 1;
        let here = allowed[i] && (seed[i] || marked[i]);
        assert(here == reached(*g, seed@, allowed@, i as int));
        out.set(i, here);
        let ps = &g.commits[i].parents;
        let mut t: usize = 0;
        while t < ps.len()
            invariant
                g.wf(),
                n == g.commits@.len(),
                i < n,
                ps@ == parents_of(*g, i as int),
                t <= ps@.len(),
                marked@.len() == n,
                here == reached(*g, seed@, allowed@, i as int),
                forall|k: int|
                    0 <= k < i ==> marked@[k] == ((exists|j: int|
                        i < j < n && #[trigger] parents_of(*g, j).contains(k as usize) && reached(
                            *g,
                            seed@,
                            allowed@,
                            j,
                        )) || (here && ps@.subrange(0, t as int).contains(k as usize))),
            decreases ps.len() - t,
        {
            let p = ps[t];
            assert(g.commits@[i as int].parents@[t as int] < i);
            let ghost pre = marked@;
            if here {
                marked.set(p, true);
            }
            assert(ps@.subrange(0, t as int + 1) =~= ps@.subrange(0, t as int).push(p));
            assert forall|k: int| 0 <= k < i implies #[trigger] ps@.subrange(
                0,
                t as int + 1,
            ).contains(k as usize) == (ps@.subrange(0, t as int).contains(k as usize) || p
                == k as usize) by {
                lemma_push_contains(ps@.subrange(0, t as int), p, k as usize);
            }
            t = t + 1;
        }
        assert(ps@.subrange(0, t as int) =~= ps@);
        assert forall|k: int| 0 <= k < i implies marked@[k] == exists|j: int|
            i <= j < n && #[trigger] parents_of(*g, j).contains(k as usize) && reached(
                *g,
                seed@,
                allowed@,
                j,
            ) by {
            if here && ps@.contains(k as usize) {
                assert(parents_of(*g, i as int).contains(k as usize));
            }
            if exists|j: int|
                i <= j < n && #[trigger] parents_of(*g, j).contains(k as usize) && reached(
                    *g,
                    seed@,
                    allowed@,
                    j,
                ) {
                let j = choose|j: int|
                    i <= j < n && #[trigger] parents_of(*g, j).contains(k as usize) && reached(
                        *g,
                        seed@,
                        allowed@,
                        j,
                    );
                if j == i {
                    assert(here && ps@.contains(k as usize));
                }
            }
        }
    }
    out
}

} // verus!
