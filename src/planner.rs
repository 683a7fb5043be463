//! What to do with each remote commit of the walk.
use vstd::prelude::*;
use crate::commit_map::{knows_remote, CommitMap};
use crate::error::RipitError;
use crate::graph::{parents_of, Graph};

verus! {

/// How a remote commit is replayed.
#[derive(PartialEq, Eq, Structural, Clone, Copy, Debug)]
pub enum Action {
    /// It has a local copy already.
    Skip,
    /// Its parents all have faithful local copies: copy it onto them, tree
    /// and all.
    Copy,
    /// Cherry-pick it onto the local tip, across a parent that has no
    /// faithful local copy.
    CherryPick,
    /// A merge with at least one parent known: merge the parents' local
    /// copies and check the result against its tree.
    Merge,
}

/// One step of a plan: the commit's index in the graph, and what to do.
#[derive(PartialEq, Eq, Structural, Clone, Copy, Debug)]
pub struct Step {
    pub commit: usize,
    pub action: Action,
}

/// The first parent in `ps` that has no local copy.
pub open spec fn first_missing(ps: Seq<usize>, mapped: Seq<bool>) -> Option<usize>
    decreases ps.len(),
{
    if ps.len() == 0 {
        None
    } else if !mapped[ps[0] as int] {
        Some(ps[0])
    } else {
        first_missing(ps.drop_first(), mapped)
    }
}

/// Some parent in `ps` is flagged in `f`.
pub open spec fn any_flagged(ps: Seq<usize>, f: Seq<bool>) -> bool {
    exists|k: int| 0 <= k < ps.len() && f[#[trigger] ps[k] as int]
}

/// The decision for commit `c`, given which commits have local copies
/// (`mapped`) and which of those were cherry-picked in this run (`picked`):
/// `Err(p)` names the parent `p` that stops it.
pub open spec fn classify(
    g: Graph,
    c: int,
    mapped: Seq<bool>,
    picked: Seq<bool>,
    uproot: bool,
) -> Result<Action, usize> {
    let ps = parents_of(g, c);
    if mapped[c] {
        Ok(Action::Skip)
    } else {
        match first_missing(ps, mapped) {
            None if !any_flagged(ps, picked) => Ok(Action::Copy),
            Some(p) if !uproot => Err(p),
            _ => if ps.len() >= 2 && any_flagged(ps, mapped) {
                Ok(Action::Merge)
            } else {
                Ok(Action::CherryPick)
            },
        }
    }
}

/// Which commits have local copies, and which were cherry-picked, after the
/// first `k` steps of `order`: each step gives its commit a local copy.
pub open spec fn state_after(
    g: Graph,
    order: Seq<usize>,
    mapped0: Seq<bool>,
    uproot: bool,
    k: int,
) -> (Seq<bool>, Seq<bool>)
    decreases k,
{
    if k <= 0 {
        (mapped0, Seq::new(mapped0.len(), |i: int| false))
    } else {
        let (m, p) = state_after(g, order, mapped0, uproot, k - 1);
        let c = order[k - 1] as int;
        if classify(g, c, m, p, uproot) == Ok::<Action, usize>(Action::CherryPick) {
            (m.update(c, true), p.update(c, true))
        } else {
            (m.update(c, true), p)
        }
    }
}

/// The decision for the `k`-th commit of `order`.
pub open spec fn decision(
    g: Graph,
    order: Seq<usize>,
    mapped0: Seq<bool>,
    uproot: bool,
    k: int,
) -> Result<Action, usize> {
    let (m, p) = state_after(g, order, mapped0, uproot, k);
    classify(g, order[k] as int, m, p, uproot)
}

/// The `k`-th commit of `order` is stopped by a parent without a local copy,
/// and `e` names the two.
pub open spec fn stops_at(
    g: Graph,
    order: Seq<usize>,
    mapped0: Seq<bool>,
    uproot: bool,
    k: int,
    e: RipitError,
) -> bool {
    match decision(g, order, mapped0, uproot, k) {
        Err(p) => match e {
            RipitError::UnknownParent { commit, parent } => commit@ == g.commits@[order[k] as int].id@
                && parent@ == g.commits@[p as int].id@,
            _ => false,
        },
        Ok(_) => false,
    }
}

fn first_missing_exec(ps: &Vec<usize>, mapped: &Vec<bool>) -> (r: Option<usize>)
    requires
        forall|k: int| 0 <= k < ps@.len() ==> (#[trigger] ps@[k]) < mapped@.len(),
    ensures
        r == first_missing(ps@, mapped@),
{
    let mut t: usize = 0;
    assert(ps@.subrange(0, ps@.len() as int) =~= ps@);
    while t < ps.len()
        invariant
            t <= ps@.len(),
            forall|k: int| 0 <= k < ps@.len() ==> (#[trigger] ps@[k]) < mapped@.len(),
            first_missing(ps@, mapped@) == first_missing(
                ps@.subrange(t as int, ps@.len() as int),
                mapped@,
            ),
        decreases ps.len() - t,
    {
        let ghost rest = ps@.subrange(t as int, ps@.len() as int);
        assert(rest[0] == ps@[t as int]);
        if !mapped[ps[t]] {
            return Some(ps[t]);
        }
        assert(rest.drop_first() =~= ps@.subrange(t as int + 1, ps@.len() as int));
        t = t + 1;
    }
    None
}

fn any_flagged_exec(ps: &Vec<usize>, f: &Vec<bool>) -> (r: bool)
    requires
        forall|k: int| 0 <= k < ps@.len() ==> (#[trigger] ps@[k]) < f@.len(),
    ensures
        r == any_flagged(ps@, f@),
{
    let mut t: usize = 0;
    while t < ps.len()
        invariant
            t <= ps@.len(),
            forall|k: int| 0 <= k < ps@.len() ==> (#[trigger] ps@[k]) < f@.len(),
            forall|k: int| 0 <= k < t ==> !f@[#[trigger] ps@[k] as int],
        decreases ps.len() - t,
    {
        if f[ps[t]] {
            return true;
        }
        t = t + 1;
    }
    false
}

fn classify_exec(g: &Graph, c: usize, mapped: &Vec<bool>, picked: &Vec<bool>, uproot: bool) -> (r:
    Result<Action, usize>)
    requires
        g.wf(),
        c < g.commits@.len(),
        mapped@.len() == g.commits@.len(),
        picked@.len() == g.commits@.len(),
    ensures
        r == classify(*g, c as int, mapped@, picked@, uproot),
{
    if mapped[c] {
        return Ok(Action::Skip);
    }
    let ps = &g.commits[c].parents;
    assert forall|k: int| 0 <= k < ps@.len() implies (#[trigger] ps@[k]) < mapped@.len() by {
        assert(g.commits@[c as int].parents@[k] < c);
    }
    let missing = first_missing_exec(ps, mapped);
    let tainted = any_flagged_exec(ps, picked);
    match missing {
        None => {
            if !tainted {
                return Ok(Action::Copy);
            }
        },
        Some(p) => {
            if !uproot {
                return Err(p);
            }
        },
    }
    if ps.len() >= 2 && any_flagged_exec(ps, mapped) {
        Ok(Action::Merge)
    } else {
        Ok(Action::CherryPick)
    }
}

/// Which commits of `g` have a local copy according to `map`.
pub fn known_commits(g: &Graph, map: &CommitMap) -> (r: Vec<bool>)
    requires
        map.wf(),
    ensures
        r@.len() == g.commits@.len(),
        forall|i: int|
            0 <= i < r@.len() ==> r@[i] == knows_remote(map@, #[trigger] g.commits@[i].id@),
{
    let mut r: Vec<bool> = Vec::new();
    let mut i: usize = 0;
    while i < g.commits.len()
        invariant
            map.wf(),
            i <= g.commits@.len(),
            r@.len() == i,
            forall|k: int|
                0 <= k < i ==> r@[k] == knows_remote(map@, #[trigger] g.commits@[k].id@),
        decreases g.commits.len() - i,
    {
        r.push(map.contains_remote(&g.commits[i].id));
        i = i + 1;
    }
    r
}

/// Decides, in order, how each commit of `order` is replayed; `mapped[i]`
/// says whether commit `i` has a local copy before the run. Each step gives
/// its commit a local copy. Fails with `UnknownParent` at the first commit
/// that has a parent without a local copy, unless `uproot` allows
/// cherry-picking across it.
pub fn plan(g: &Graph, order: &Vec<usize>, mapped: &Vec<bool>, uproot: bool) -> (r: Result<
    Vec<Step>,
    RipitError,
>)
    requires
        g.wf(),
        mapped@.len() == g.commits@.len(),
        forall|k: int| 0 <= k < order@.len() ==> (#[trigger] order@[k]) < g.commits@.len(),
    ensures
        r is Ok <==> forall|k: int|
            0 <= k < order@.len() ==> (#[trigger] decision(*g, order@, mapped@, uproot, k)) is Ok,
        r matches Ok(steps) ==> steps@.len() == order@.len() && forall|k: int|
            0 <= k < order@.len() ==> (#[trigger] steps@[k]).commit == order@[k] && Ok::<
                Action,
                usize,
            >(steps@[k].action) == decision(*g, order@, mapped@, uproot, k),
        r matches Err(e) ==> exists|k: int|
            0 <= k < order@.len() && (forall|j: int|
                0 <= j < k ==> (#[trigger] decision(*g, order@, mapped@, uproot, j)) is Ok)
                && #[trigger] stops_at(*g, order@, mapped@, uproot, k, e),
{
    let n = g.commits.len();
    let mut m = mapped.clone();
    let mut picked: Vec<bool> = Vec::new();
    let mut z: usize = 0;
    while z < n
        invariant
            z <= n,
            picked@.len() == z,
            forall|k: int| 0 <= k < z ==> !picked@[k],
        decreases n - z,
    {
        picked.push(false);
        z = z + 1;
    }
    assert(picked@ =~= Seq::new(mapped@.len(), |i: int| false));
    assert(m@ =~= mapped@);
    let mut steps: Vec<Step> = Vec::new();
    let mut k: usize = 0;
    while k < order.len()
        invariant
            g.wf(),
            n == g.commits@.len(),
            mapped@.len() == n,
            forall|j: int| 0 <= j < order@.len() ==> (#[trigger] order@[j]) < n,
            k <= order@.len(),
            (m@, picked@) == state_after(*g, order@, mapped@, uproot, k as int),
            steps@.len() == k,
            forall|j: int|
                0 <= j < k ==> (#[trigger] steps@[j]).commit == order@[j] && Ok::<Action, usize>(
                    steps@[j].action,
                ) == decision(*g, order@, mapped@, uproot, j),
        decreases order.len() - k,
    {
        let c = order[k];
        let ghost s = state_after(*g, order@, mapped@, uproot, k as int);
        assert(m@.len() == n && picked@.len() == n) by {
            lemma_state_len(*g, order@, mapped@, uproot, k as int);
        }
        match classify_exec(g, c, &m, &picked, uproot) {
            Ok(action) => {
                steps.push(Step { commit: c, action });
                m.set(c, true);
                if action == Action::CherryPick {
                    picked.set(c, true);
                }
            },
            Err(p) => {
                assert(p < c) by {
                    lemma_first_missing_is_parent(parents_of(*g, c as int), m@);
                    let w = choose|w: int|
                        0 <= w < parents_of(*g, c as int).len() && parents_of(*g, c as int)[w]
                            == p;
                    assert(g.commits@[c as int].parents@[w] < c);
                }
                assert(forall|j: int|
                    0 <= j < k ==> (#[trigger] decision(*g, order@, mapped@, uproot, j)) is Ok) by {
                    assert forall|j: int| 0 <= j < k implies (#[trigger] decision(
                        *g,
                        order@,
                        mapped@,
                        uproot,
                        j,
                    )) is Ok by {
                        assert(steps@[j].commit == order@[j]);
                    }
                }
                let commit = g.commits[c].id.clone();
                let parent = g.commits[p].id.clone();
                let e = RipitError::UnknownParent { commit, parent };
                assert(decision(*g, order@, mapped@, uproot, k as int) == Err::<Action, usize>(p));
                assert(stops_at(*g, order@, mapped@, uproot, k as int, e));
                return Err(e);
            },
        }
        k = k + 1;
    }
    assert forall|j: int| 0 <= j < order@.len() implies (#[trigger] decision(
        *g,
        order@,
        mapped@,
        uproot,
        j,
    )) is Ok by {
        assert(steps@[j].commit == order@[j]);
    }
    Ok(steps)
}

proof fn lemma_state_len(g: Graph, order: Seq<usize>, mapped0: Seq<bool>, uproot: bool, k: int)
    requires
        k <= order.len(),
        forall|j: int| 0 <= j < order.len() ==> (#[trigger] order[j]) < mapped0.len(),
    ensures
        state_after(g, order, mapped0, uproot, k).0.len() == mapped0.len(),
        state_after(g, order, mapped0, uproot, k).1.len() == mapped0.len(),
    decreases k,
{
    if k > 0 {
        lemma_state_len(g, order, mapped0, uproot, k - 1);
        let (m, p) = state_after(g, order, mapped0, uproot, k - 1);
        let c = order[k - 1] as int;
        assert(m.update(c, true).len() == m.len());
        assert(p.update(c, true).len() == p.len());
    } else {
        assert(Seq::new(mapped0.len(), |i: int| false).len() == mapped0.len());
    }
}

proof fn lemma_first_missing_is_parent(ps: Seq<usize>, mapped: Seq<bool>)
    ensures
        first_missing(ps, mapped) matches Some(p) ==> ps.contains(p),
    decreases ps.len(),
{
    if ps.len() > 0 && mapped[ps[0] as int] {
        lemma_first_missing_is_parent(ps.drop_first(), mapped);
        match first_missing(ps.drop_first(), mapped) {
            Some(p) => {
                let w = choose|w: int| 0 <= w < ps.drop_first().len() && ps.drop_first()[w] == p;
                assert(ps[w + 1] == p);
            },
            None => {},
        }
    } else if ps.len() > 0 {
        assert(ps[0] == ps[0]);
    }
}

} // verus!
