//! Turning a branch's remote history and the correspondence map into the
//! replay steps, and what each step needs.
use vstd::prelude::*;
use crate::commit_map::{knows_remote, CommitMap};
use crate::error::RipitError;
use crate::graph::{parents_of, Graph};
use crate::message::{filter_message, filter_uprooted_message, rewritten, rewritten_uprooted};
use crate::patterns::Filters;
use crate::planner::{decision, known_commits, plan, stops_at, Action, Step};
use crate::walker::{is_replay_order, pending, walk};

verus! {

/// The remote id of each commit of `g` that has a local copy in `map`.
pub open spec fn known_in(g: Graph, map: Seq<(Seq<char>, Seq<char>)>) -> Seq<bool> {
    Seq::new(g.commits@.len(), |i: int| knows_remote(map, g.commits@[i].id@))
}

/// Plans the replay of the remote history `g` up to its commit `tip`; `g`
/// holds the commits reachable from `tip`. Fails with `MissingBootstrap`
/// when no commit of `g` has a local copy, else returns the plan for the
/// walk from `tip`, or `plan`'s `UnknownParent`.
pub fn sync_plan(g: &Graph, map: &CommitMap, tip: usize, uproot: bool) -> (r: Result<
    (Vec<usize>, Vec<Step>),
    RipitError,
>)
    requires
        g.wf(),
        map.wf(),
        tip < g.commits@.len(),
    ensures
        r matches Err(RipitError::MissingBootstrap) <==> forall|i: int|
            0 <= i < g.commits@.len() ==> !(#[trigger] known_in(*g, map@)[i]),
        r matches Ok((order, steps)) ==> {
            &&& is_replay_order(*g, pending(*g, known_in(*g, map@), tip as int), order@)
            &&& steps@.len() == order@.len()
            &&& forall|k: int|
                0 <= k < order@.len() ==> (#[trigger] steps@[k]).commit == order@[k] && Ok::<
                    Action,
                    usize,
                >(steps@[k].action) == decision(*g, order@, known_in(*g, map@), uproot, k)
        },
        r matches Err(e) ==> e matches RipitError::MissingBootstrap || exists|order: Seq<usize>, k: int|
            is_replay_order(*g, pending(*g, known_in(*g, map@), tip as int), order) && 0 <= k
                < order.len() && #[trigger] stops_at(*g, order, known_in(*g, map@), uproot, k, e),
        known_in(*g, map@)[tip as int] ==> (r matches Ok((order, steps)) && order@.len() == 0),
{
    let known = known_commits(g, map);
    assert(known@ =~= known_in(*g, map@));
    let mut any = false;
    let mut i: usize = 0;
    while i < known.len()
        invariant
            i <= known@.len(),
            any <==> exists|k: int| 0 <= k < i && known@[k],
        decreases known.len() - i,
    {
        if known[i] {
            any = true;
        }
        i = i + 1;
    }
    if !any {
        return Err(RipitError::MissingBootstrap);
    }
    let order = walk(g, &known, tip);
    match plan(g, &order, &known, uproot) {
        Ok(steps) => Ok((order, steps)),
        Err(e) => {
            assert(!(e matches RipitError::MissingBootstrap));
            Err(e)
        },
    }
}

/// The local parents of a copy of the remote commit `c`: the local copy of
/// each of its parents, in order. `None` when one of them has no copy.
pub fn local_parents(g: &Graph, map: &CommitMap, c: usize) -> (r: Option<Vec<String>>)
    requires
        g.wf(),
        map.wf(),
        c < g.commits@.len(),
    ensures
        r matches Some(v) ==> v@.len() == parents_of(*g, c as int).len() && forall|i: int|
            0 <= i < v@.len() ==> map@.contains(
                (g.commits@[parents_of(*g, c as int)[i] as int].id@, #[trigger] v@[i]@),
            ),
        r is None <==> exists|i: int|
            0 <= i < parents_of(*g, c as int).len() && !knows_remote(
                map@,
                g.commits@[#[trigger] parents_of(*g, c as int)[i] as int].id@,
            ),
{
    let ps = &g.commits[c].parents;
    let mut out: Vec<String> = Vec::new();
    let mut t: usize = 0;
    while t < ps.len()
        invariant
            g.wf(),
            map.wf(),
            c < g.commits@.len(),
            ps@ == parents_of(*g, c as int),
            t <= ps@.len(),
            out@.len() == t,
            forall|i: int|
                0 <= i < t ==> map@.contains(
                    (g.commits@[ps@[i] as int].id@, #[trigger] out@[i]@),
                ),
        decreases ps.len() - t,
    {
        let p = ps[t];
        assert(g.commits@[c as int].parents@[t as int] < c);
        match map.local_of(&g.commits[p].id) {
            Some(l) => {
                out.push(l);
            },
            None => {
                return None;
            },
        }
        t = t + 1;
    }
    proof {
        assert forall|i: int|
            0 <= i < ps@.len() implies knows_remote(
            map@,
            g.commits@[#[trigger] parents_of(*g, c as int)[i] as int].id@,
        ) by {
            let w = choose|w: int|
                0 <= w < map@.len() && map@[w] == (g.commits@[ps@[i] as int].id@, out@[i]@);
            assert(map@[w].0 == g.commits@[ps@[i] as int].id@);
        }
    }
    Some(out)
}

/// The local copies of the parents of `c` that have one, in the order of
/// the parents: the parents of the local copy of a merge.
pub open spec fn merge_parent_ids(
    g: Graph,
    map: Seq<(Seq<char>, Seq<char>)>,
    ps: Seq<usize>,
) -> Seq<Seq<char>>
    decreases ps.len(),
{
    if ps.len() == 0 {
        Seq::<Seq<char>>::empty()
    } else {
        let prev = merge_parent_ids(g, map, ps.drop_last());
        let r = g.commits@[ps.last() as int].id@;
        if knows_remote(map, r) {
            prev.push(choose|l: Seq<char>| map.contains((r, l)))
        } else {
            prev
        }
    }
}

/// The parents of the local copy of the merge `c`: the local copy of each
/// of its parents that has one, in order.
pub fn merge_parents(g: &Graph, map: &CommitMap, c: usize) -> (r: Vec<String>)
    requires
        g.wf(),
        map.wf(),
        c < g.commits@.len(),
    ensures
        r@.map_values(|s: String| s@) == merge_parent_ids(*g, map@, parents_of(*g, c as int)),
{
    let ps = &g.commits[c].parents;
    let mut out: Vec<String> = Vec::new();
    let mut t: usize = 0;
    while t < ps.len()
        invariant
            g.wf(),
            map.wf(),
            c < g.commits@.len(),
            ps@ == parents_of(*g, c as int),
            t <= ps@.len(),
            out@.map_values(|s: String| s@) == merge_parent_ids(
                *g,
                map@,
                ps@.subrange(0, t as int),
            ),
        decreases ps.len() - t,
    {
        let p = ps[t];
        assert(g.commits@[c as int].parents@[t as int] < c);
        let ghost sub = ps@.subrange(0, t as int + 1);
        assert(sub.drop_last() =~= ps@.subrange(0, t as int));
        match map.local_of(&g.commits[p].id) {
            Some(l) => {
                proof { lemma_pairing_unique(map, g.commits@[p as int].id@, l@); }
                let ghost before = out@;
                out.push(l);
                assert(out@.map_values(|s: String| s@) =~= before.map_values(|s: String| s@).push(
                    l@,
                ));
            },
            None => {},
        }
        t = t + 1;
    }
    assert(ps@.subrange(0, t as int) =~= ps@);
    out
}

proof fn lemma_pairing_unique(map: &CommitMap, r: Seq<char>, l: Seq<char>)
    requires
        map.wf(),
        map@.contains((r, l)),
    ensures
        knows_remote(map@, r),
        (choose|x: Seq<char>| map@.contains((r, x))) == l,
{
    let i = choose|i: int| 0 <= i < map@.len() && map@[i] == (r, l);
    assert(map@[i].0 == r);
    let x = choose|x: Seq<char>| map@.contains((r, x));
    let j = choose|j: int| 0 <= j < map@.len() && map@[j] == (r, x);
    map.lemma_pairs_one_to_one();
    if i < j {
        assert(map@[i].0 != map@[j].0);
    } else if j < i {
        assert(map@[j].0 != map@[i].0);
    }
}

/// The message of the local copy made by `action` of the remote commit with
/// message `msg` and id `id`: cherry-picked copies carry the `(uprooted)`
/// line.
pub fn replay_message(filters: &Filters, action: Action, msg: &str, id: &str) -> (r: String)
    ensures
        action == Action::CherryPick ==> r@ == rewritten_uprooted(filters.patterns(), msg@, id@),
        action != Action::CherryPick ==> r@ == rewritten(filters.patterns(), msg@, id@),
{
    if action == Action::CherryPick {
        filter_uprooted_message(filters, msg, id)
    } else {
        filter_message(filters, msg, id)
    }
}

} // verus!
