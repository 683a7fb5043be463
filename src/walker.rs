//! Which remote commits to replay, and in which order.
use vstd::prelude::*;
use crate::graph::{lemma_push_contains, parents_of, reach, reached, Graph};

verus! {

/// `a` sorts before `b`, character by character.
pub open spec fn lex_less(a: Seq<char>, b: Seq<char>) -> bool
    decreases a.len(),
{
    if a.len() == 0 {
        b.len() > 0
    } else if b.len() == 0 {
        false
    } else if a[0] != b[0] {
        (a[0] as u32) < (b[0] as u32)
    } else {
        lex_less(a.drop_first(), b.drop_first())
    }
}

proof fn lemma_lex_irreflexive(a: Seq<char>)
    ensures
        !lex_less(a, a),
    decreases a.len(),
{
    if a.len() > 0 {
        lemma_lex_irreflexive(a.drop_first());
    }
}

proof fn lemma_lex_transitive(a: Seq<char>, b: Seq<char>, c: Seq<char>)
    requires
        lex_less(a, b),
        lex_less(b, c),
    ensures
        lex_less(a, c),
    decreases a.len(),
{
    if a.len() > 0 && b.len() > 0 && c.len() > 0 && a[0] == b[0] && b[0] == c[0] {
        lemma_lex_transitive(a.drop_first(), b.drop_first(), c.drop_first());
    }
}

/// The commit `a` of `g` comes before `b`: an earlier committer time, or the
/// same time and a smaller id.
pub open spec fn comes_before(g: Graph, a: int, b: int) -> bool {
    let ta = g.commits@[a].time;
    let tb = g.commits@[b].time;
    ta < tb || (ta == tb && lex_less(g.commits@[a].id@, g.commits@[b].id@))
}

proof fn lemma_before_order(g: Graph, a: int, b: int, c: int)
    ensures
        !comes_before(g, a, a),
        comes_before(g, a, b) && comes_before(g, b, c) ==> comes_before(g, a, c),
{
    lemma_lex_irreflexive(g.commits@[a].id@);
    if comes_before(g, a, b) && comes_before(g, b, c) {
        let (ia, ib, ic) = (g.commits@[a].id@, g.commits@[b].id@, g.commits@[c].id@);
        if g.commits@[a].time == g.commits@[b].time && g.commits@[b].time
            == g.commits@[c].time {
            lemma_lex_transitive(ia, ib, ic);
        }
    }
}

fn id_less(a: &str, b: &str) -> (r: bool)
    ensures
        r == lex_less(a@, b@),
{
    let na = a.unicode_len();
    let nb = b.unicode_len();
    let mut i: usize = 0;
    assert(a@.subrange(0, na as int) =~= a@);
    assert(b@.subrange(0, nb as int) =~= b@);
    while i < na && i < nb
        invariant
            i <= na == a@.len(),
            i <= nb == b@.len(),
            lex_less(a@, b@) == lex_less(
                a@.subrange(i as int, na as int),
                b@.subrange(i as int, nb as int),
            ),
        decreases na - i,
    {
        let ca = a.get_char(i);
        let cb = b.get_char(i);
        let ghost sa = a@.subrange(i as int, na as int);
        let ghost sb = b@.subrange(i as int, nb as int);
        assert(sa[0] == ca && sb[0] == cb);
        if ca != cb {
            return (ca as u32) < (cb as u32);
        }
        assert(sa.drop_first() =~= a@.subrange(i as int + 1, na as int));
        assert(sb.drop_first() =~= b@.subrange(i as int + 1, nb as int));
        i = i + 1;
    }
    i == na && i < nb
}

fn before(g: &Graph, a: usize, b: usize) -> (r: bool)
    requires
        a < g.commits@.len(),
        b < g.commits@.len(),
    ensures
        r == comes_before(*g, a as int, b as int),
{
    let ta = g.commits[a].time;
    let tb = g.commits[b].time;
    ta < tb || (ta == tb && id_less(g.commits[a].id.as_str(), g.commits[b].id.as_str()))
}

/// Every parent of `u` that is to be replayed is in `done`.
pub open spec fn ready(g: Graph, pend: Seq<bool>, done: Seq<usize>, u: int) -> bool {
    forall|k: int|
        0 <= k < parents_of(g, u).len() && pend[parents_of(g, u)[k] as int] ==> done.contains(
            #[trigger] parents_of(g, u)[k],
        )
}

/// `order` lists each commit marked in `pend` exactly once, each after its
/// marked parents, and at each step the one that comes first among those
/// whose marked parents are all listed already.
pub open spec fn is_replay_order(g: Graph, pend: Seq<bool>, order: Seq<usize>) -> bool {
    &&& order.no_duplicates()
    &&& forall|x: int|
        0 <= x < order.len() ==> (#[trigger] order[x]) < g.commits@.len() && pend[order[x] as int]
    &&& forall|u: int| 0 <= u < g.commits@.len() && pend[u] ==> order.contains(u as usize)
    &&& forall|x: int|
        0 <= x < order.len() ==> ready(g, pend, order.subrange(0, x), #[trigger] order[x] as int)
    &&& forall|x: int, u: int|
        0 <= x < order.len() && 0 <= u < g.commits@.len() && pend[u] && !order.subrange(
            0,
            x,
        ).contains(u as usize) && ready(g, pend, order.subrange(0, x), u) ==> !#[trigger] comes_before(
            g,
            u,
            order[x] as int,
        )
}

fn is_ready(g: &Graph, pend: &Vec<bool>, emitted: &Vec<bool>, order: &Vec<usize>, u: usize) -> (r:
    bool)
    requires
        g.wf(),
        u < g.commits@.len(),
        pend@.len() == g.commits@.len(),
        emitted@.len() == g.commits@.len(),
        forall|k: int| 0 <= k < emitted@.len() ==> emitted@[k] == order@.contains(k as usize),
    ensures
        r == ready(*g, pend@, order@, u as int),
{
    let ps = &g.commits[u].parents;
    let mut t: usize = 0;
    while t < ps.len()
        invariant
            g.wf(),
            u < g.commits@.len(),
            pend@.len() == g.commits@.len(),
            emitted@.len() == g.commits@.len(),
            forall|k: int| 0 <= k < emitted@.len() ==> emitted@[k] == order@.contains(k as usize),
            ps@ == parents_of(*g, u as int),
            t <= ps@.len(),
            forall|k: int|
                0 <= k < t && pend@[ps@[k] as int] ==> order@.contains(#[trigger] ps@[k]),
        decreases ps.len() - t,
    {
        let p = ps[t];
        assert(g.commits@[u as int].parents@[t as int] < u);
        if pend[p] && !emitted[p] {
            return false;
        }
        t = t + 1;
    }
    true
}

/// The next commit to replay: among the marked commits not yet emitted whose
/// marked parents are all emitted, one that no other comes before.
fn pick(g: &Graph, pend: &Vec<bool>, emitted: &Vec<bool>, order: &Vec<usize>) -> (r: Option<usize>)
    requires
        g.wf(),
        pend@.len() == g.commits@.len(),
        emitted@.len() == g.commits@.len(),
        forall|k: int| 0 <= k < emitted@.len() ==> emitted@[k] == order@.contains(k as usize),
    ensures
        r matches Some(b) ==> {
            &&& b < g.commits@.len()
            &&& pend@[b as int]
            &&& !emitted@[b as int]
            &&& ready(*g, pend@, order@, b as int)
            &&& forall|u: int|
                0 <= u < g.commits@.len() && pend@[u] && !emitted@[u] && ready(
                    *g,
                    pend@,
                    order@,
                    u,
                ) ==> !comes_before(*g, u, b as int)
        },
        r is None ==> forall|u: int| 0 <= u < g.commits@.len() && pend@[u] ==> emitted@[u],
{
    let n = g.commits.len();
    let mut best: Option<usize> = None;
    let mut i: usize = 0;
    while i < n
        invariant
            g.wf(),
            n == g.commits@.len(),
            pend@.len() == n,
            emitted@.len() == n,
            forall|k: int| 0 <= k < emitted@.len() ==> emitted@[k] == order@.contains(k as usize),
            i <= n,
            best matches Some(b) ==> {
                &&& b < i
                &&& pend@[b as int]
                &&& !emitted@[b as int]
                &&& ready(*g, pend@, order@, b as int)
                &&& forall|u: int|
                    0 <= u < i && pend@[u] && !emitted@[u] && ready(*g, pend@, order@, u)
                        ==> !comes_before(*g, u, b as int)
            },
            best is None ==> forall|u: int| 0 <= u < i ==> !(pend@[u] && !emitted@[u]),
        decreases n - i,
    {
        if pend[i] && !emitted[i] {
            if best.is_none() {
                assert(ready(*g, pend@, order@, i as int)) by {
                    assert forall|k: int|
                        0 <= k < parents_of(*g, i as int).len() && pend@[parents_of(
                            *g,
                            i as int,
                        )[k] as int] implies order@.contains(
                        #[trigger] parents_of(*g, i as int)[k],
                    ) by {
                        assert(g.commits@[i as int].parents@[k] < i);
                    }
                }
            }
            let ok = is_ready(g, pend, emitted, order, i);
            if ok {
                proof {
                    lemma_before_order(*g, i as int, i as int, i as int);
                }
                match best {
                    None => {
                        best = Some(i);
                    },
                    Some(b) => {
                        if before(g, i, b) {
                            proof {
                                assert forall|u: int|
                                    0 <= u < i && pend@[u] && !emitted@[u] && ready(
                                        *g,
                                        pend@,
                                        order@,
                                        u,
                                    ) implies !comes_before(*g, u, i as int) by {
                                    lemma_before_order(*g, u, i as int, b as int);
                                }
                            }
                            best = Some(i);
                        }
                    },
                }
            }
        }
        i = i + 1;
    }
    best
}

proof fn lemma_distinct_below(s: Seq<usize>, n: usize)
    requires
        s.no_duplicates(),
        forall|x: int| 0 <= x < s.len() ==> #[trigger] s[x] < n,
    ensures
        s.len() <= n,
{
    let t = s.map_values(|x: usize| x as int);
    assert(t.no_duplicates()) by {
        assert forall|i: int, j: int| 0 <= i < t.len() && 0 <= j < t.len() && i != j implies t[i]
            != t[j] by {
            assert(s[i] != s[j]);
        }
    }
    t.unique_seq_to_set();
    vstd::set_lib::lemma_int_range(0, n as int);
    assert(t.to_set().subset_of(vstd::set_lib::set_int_range(0, n as int))) by {
        assert forall|v: int| t.to_set().contains(v) implies vstd::set_lib::set_int_range(
            0,
            n as int,
        ).contains(v) by {
            let w = choose|w: int| 0 <= w < t.len() && t[w] == v;
            assert(s[w] < n);
        }
    }
    vstd::set_lib::lemma_len_subset(t.to_set(), vstd::set_lib::set_int_range(0, n as int));
}

/// Orders the commits marked in `pend`: parents first, and otherwise by
/// committer time, then by id.
pub fn replay_order(g: &Graph, pend: &Vec<bool>) -> (order: Vec<usize>)
    requires
        g.wf(),
        pend@.len() == g.commits@.len(),
    ensures
        is_replay_order(*g, pend@, order@),
{
    let n = g.commits.len();
    let mut emitted: Vec<bool> = Vec::new();
    let mut z: usize = 0;
    while z < n
        invariant
            z <= n,
            emitted@.len() == z,
            forall|k: int| 0 <= k < z ==> !emitted@[k],
        decreases n - z,
    {
        emitted.push(false);
        z = z + 1;
    }
    let mut order: Vec<usize> = Vec::new();
    let mut done = false;
    while !done
        invariant
            g.wf(),
            n == g.commits@.len(),
            pend@.len() == n,
            emitted@.len() == n,
            forall|k: int| 0 <= k < n ==> emitted@[k] == order@.contains(k as usize),
            order@.no_duplicates(),
            forall|x: int|
                0 <= x < order@.len() ==> (#[trigger] order@[x]) < n && pend@[order@[x] as int],
            order@.len() <= n,
            forall|x: int|
                0 <= x < order@.len() ==> ready(
                    *g,
                    pend@,
                    order@.subrange(0, x),
                    #[trigger] order@[x] as int,
                ),
            forall|x: int, u: int|
                0 <= x < order@.len() && 0 <= u < n && pend@[u] && !order@.subrange(0, x).contains(
                    u as usize,
                ) && ready(*g, pend@, order@.subrange(0, x), u) ==> !#[trigger] comes_before(
                    *g,
                    u,
                    order@[x] as int,
                ),
            done ==> forall|u: int| 0 <= u < n && pend@[u] ==> emitted@[u],
        decreases (n - order@.len()) * 2 + (if done {
            0int
        } else {
            1int
        }),
    {
        match pick(g, pend, &emitted, &order) {
            None => {
                done = true;
            },
            Some(b) => {
                let ghost pre = order@;
                order.push(b);
                emitted.set(b, true);
                proof {
                    assert(order@.subrange(0, pre.len() as int) =~= pre);
                    assert forall|x: int| 0 <= x < pre.len() implies order@.subrange(0, x)
                        =~= pre.subrange(0, x) by {}
                    assert forall|k: int| 0 <= k < n implies emitted@[k] == order@.contains(
                        k as usize,
                    ) by {
                        lemma_push_contains(pre, b, k as usize);
                    }
                    assert(order@.no_duplicates()) by {
                        assert(!pre.contains(b));
                    }
                    assert forall|x: int|
                        0 <= x < order@.len() implies ready(
                        *g,
                        pend@,
                        order@.subrange(0, x),
                        #[trigger] order@[x] as int,
                    ) by {
                        if x < pre.len() {
                            assert(order@.subrange(0, x) =~= pre.subrange(0, x));
                        }
                    }
                    assert forall|x: int, u: int|
                        0 <= x < order@.len() && 0 <= u < n && pend@[u] && !order@.subrange(
                            0,
                            x,
                        ).contains(u as usize) && ready(
                            *g,
                            pend@,
                            order@.subrange(0, x),
                            u,
                        ) implies !#[trigger] comes_before(*g, u, order@[x] as int) by {
                        if x < pre.len() {
                            assert(order@.subrange(0, x) =~= pre.subrange(0, x));
                        }
                    }
                    lemma_distinct_below(order@, n);
                }
            },
        }
    }
    proof {
        assert forall|u: int| 0 <= u < n && pend@[u] implies order@.contains(u as usize) by {
            assert(emitted@[u]);
        }
    }
    order
}

/// `n` times `true`.
pub open spec fn all_true(n: nat) -> Seq<bool> {
    Seq::new(n, |i: int| true)
}

/// `n` flags, only the one at `t` set.
pub open spec fn only(n: nat, t: int) -> Seq<bool> {
    Seq::new(n, |i: int| i == t)
}

/// `i` is known locally, or is an ancestor of a commit known locally.
pub open spec fn hidden(g: Graph, known: Seq<bool>, i: int) -> bool {
    reached(g, known, all_true(g.commits@.len()), i)
}

pub open spec fn visible(g: Graph, known: Seq<bool>) -> Seq<bool> {
    Seq::new(g.commits@.len(), |i: int| !hidden(g, known, i))
}

/// The commits to replay: the ancestors of `tip`, `tip` included, that are
/// neither known locally nor ancestors of a commit known locally.
pub open spec fn pending(g: Graph, known: Seq<bool>, tip: int) -> Seq<bool> {
    Seq::new(
        g.commits@.len(),
        |i: int| reached(g, only(g.commits@.len(), tip), visible(g, known), i),
    )
}

fn flags(n: usize, all: bool, t: usize) -> (r: Vec<bool>)
    ensures
        r@ == (if all {
            all_true(n as nat)
        } else {
            only(n as nat, t as int)
        }),
{
    let mut r: Vec<bool> = Vec::new();
    let mut i: usize = 0;
    while i < n
        invariant
            i <= n,
            r@ == (if all {
                all_true(n as nat)
            } else {
                only(n as nat, t as int)
            }).subrange(0, i as int),
        decreases n - i,
    {
        r.push(all || i == t);
        i = i + 1;
        assert(r@ =~= (if all {
            all_true(n as nat)
        } else {
            only(n as nat, t as int)
        }).subrange(0, i as int));
    }
    assert(r@ =~= (if all {
        all_true(n as nat)
    } else {
        only(n as nat, t as int)
    }));
    r
}

proof fn lemma_reached_from_seed(g: Graph, seed: Seq<bool>, allowed: Seq<bool>, i: int)
    requires
        reached(g, seed, allowed, i),
    ensures
        exists|j: int| i <= j < g.commits@.len() && seed[j] && allowed[j],
    decreases g.commits@.len() - i,
{
    if !seed[i] {
        let j = choose|j: int|
            i < j < g.commits@.len() && #[trigger] parents_of(g, j).contains(i as usize) && reached(
                g,
                seed,
                allowed,
                j,
            );
        lemma_reached_from_seed(g, seed, allowed, j);
    }
}

/// A remote tip that is known locally leaves nothing to replay.
pub proof fn lemma_known_tip_is_noop(g: Graph, known: Seq<bool>, tip: int)
    requires
        0 <= tip < g.commits@.len(),
        known.len() == g.commits@.len(),
        known[tip],
    ensures
        forall|i: int| 0 <= i < g.commits@.len() ==> !(#[trigger] pending(g, known, tip)[i]),
{
    let n = g.commits@.len();
    assert(hidden(g, known, tip));
    assert forall|i: int| 0 <= i < n implies !(#[trigger] pending(g, known, tip)[i]) by {
        if pending(g, known, tip)[i] {
            lemma_reached_from_seed(g, only(n, tip), visible(g, known), i);
        }
    }
}

/// The remote commits to replay to bring the local branch up to the remote
/// commit `tip`, in replay order; `known[i]` says whether commit `i` has a
/// local copy. Empty when `tip` itself is known.
pub fn walk(g: &Graph, known: &Vec<bool>, tip: usize) -> (order: Vec<usize>)
    requires
        g.wf(),
        known@.len() == g.commits@.len(),
        tip < g.commits@.len(),
    ensures
        is_replay_order(*g, pending(*g, known@, tip as int), order@),
        known@[tip as int] ==> order@.len() == 0,
{
    let n = g.commits.len();
    let everything = flags(n, true, 0);
    let hid = reach(g, known, &everything);
    let mut allowed: Vec<bool> = Vec::new();
    let mut i: usize = 0;
    while i < n
        invariant
            i <= n,
            n == g.commits@.len(),
            hid@.len() == n,
            everything@ == all_true(n as nat),
            forall|k: int| 0 <= k < n ==> hid@[k] == hidden(*g, known@, k),
            allowed@ =~= visible(*g, known@).subrange(0, i as int),
        decreases n - i,
    {
        allowed.push(!hid[i]);
        i = i + 1;
    }
    assert(allowed@ =~= visible(*g, known@));
    let seed = flags(n, false, tip);
    let pend = reach(g, &seed, &allowed);
    assert(pend@ =~= pending(*g, known@, tip as int));
    let order = replay_order(g, &pend);
    proof {
        if known@[tip as int] {
            lemma_known_tip_is_noop(*g, known@, tip as int);
            if order@.len() > 0 {
                assert(pend@[order@[0] as int]);
            }
        }
    }
    order
}

} // verus!
