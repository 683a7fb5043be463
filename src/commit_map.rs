//! The correspondence between remote commit ids and the local ids of their
//! copies, in the order the pairs were learnt.
use vstd::prelude::*;
use crate::error::RipitError;
use crate::message::{marker_id, provenance_of};

verus! {

/// A pair of a remote id and a local id.
pub type Pair = (Seq<char>, Seq<char>);

pub open spec fn knows_remote(ps: Seq<Pair>, r: Seq<char>) -> bool {
    exists|i: int| 0 <= i < ps.len() && (#[trigger] ps[i]).0 == r
}

pub open spec fn knows_local(ps: Seq<Pair>, l: Seq<char>) -> bool {
    exists|i: int| 0 <= i < ps.len() && (#[trigger] ps[i]).1 == l
}

/// Learning a pair: ignored when either id is already paired, so that what
/// was learnt first wins.
pub open spec fn learn(ps: Seq<Pair>, r: Seq<char>, l: Seq<char>) -> Seq<Pair> {
    if knows_remote(ps, r) || knows_local(ps, l) {
        ps
    } else {
        ps.push((r, l))
    }
}

/// Learning each pair of `news` in order.
pub open spec fn learn_all(ps: Seq<Pair>, news: Seq<Pair>) -> Seq<Pair>
    decreases news.len(),
{
    if news.len() == 0 {
        ps
    } else {
        let prev = learn_all(ps, news.drop_last());
        learn(prev, news.last().0, news.last().1)
    }
}

/// No remote id and no local id occurs twice.
pub open spec fn one_to_one(ps: Seq<Pair>) -> bool {
    forall|i: int, j: int|
        0 <= i < j < ps.len() ==> (#[trigger] ps[i]).0 != (#[trigger] ps[j]).0 && ps[i].1
            != ps[j].1
}

/// The pairs that the marked ones among local commits give: for each local
/// id whose message carries a marker, the marker's remote id and that local
/// id.
pub open spec fn marked_pairs(locals: Seq<Seq<char>>, msgs: Seq<Seq<char>>) -> Seq<Pair>
    decreases locals.len(),
{
    if locals.len() == 0 || msgs.len() != locals.len() {
        Seq::<Pair>::empty()
    } else {
        let prev = marked_pairs(locals.drop_last(), msgs.drop_last());
        match marker_id(msgs.last()) {
            Some(r) => prev.push((r, locals.last())),
            None => prev,
        }
    }
}

pub struct CommitMap {
    remotes: Vec<String>,
    locals: Vec<String>,
}

impl View for CommitMap {
    type V = Seq<Pair>;

    closed spec fn view(&self) -> Seq<Pair> {
        Seq::new(self.remotes@.len(), |i: int| (self.remotes@[i]@, self.locals@[i]@))
    }
}

impl CommitMap {
    pub closed spec fn wf(&self) -> bool {
        &&& self.remotes@.len() == self.locals@.len()
        &&& one_to_one(self@)
    }

    /// No remote id and no local id is paired twice.
    pub proof fn lemma_pairs_one_to_one(&self)
        requires
            self.wf(),
        ensures
            one_to_one(self@),
    {
    }

    /// The empty map.
    pub fn new() -> (r: CommitMap)
        ensures
            r.wf(),
            r@ == Seq::<Pair>::empty(),
    {
        let r = CommitMap { remotes: Vec::new(), locals: Vec::new() };
        assert(r@ =~= Seq::<Pair>::empty());
        r
    }

    /// Number of pairs.
    pub fn len(&self) -> (r: usize)
        requires
            self.wf(),
        ensures
            r == self@.len(),
    {
        self.remotes.len()
    }

    fn position(v: &Vec<String>, x: &String) -> (r: Option<usize>)
        ensures
            r matches Some(i) ==> i < v@.len() && v@[i as int]@ == x@,
            r is None ==> forall|i: int| 0 <= i < v@.len() ==> (#[trigger] v@[i])@ != x@,
    {
        let mut i: usize = 0;
        while i < v.len()
            invariant
                i <= v@.len(),
                forall|k: int| 0 <= k < i ==> (#[trigger] v@[k])@ != x@,
            decreases v.len() - i,
        {
            if v[i] == *x {
                return Some(i);
            }
            i = i + 1;
        }
        None
    }

    /// Whether the remote id `r` is paired.
    pub fn contains_remote(&self, r: &String) -> (b: bool)
        requires
            self.wf(),
        ensures
            b == knows_remote(self@, r@),
    {
        match CommitMap::position(&self.remotes, r) {
            Some(i) => {
                assert(self@[i as int].0 == r@);
                true
            },
            None => {
                assert(!knows_remote(self@, r@)) by {
                    assert forall|i: int| 0 <= i < self@.len() implies (#[trigger] self@[i]).0
                        != r@ by {
                        assert(self.remotes@[i]@ != r@);
                    }
                }
                false
            },
        }
    }

    /// The local id paired with the remote id `r`.
    pub fn local_of(&self, r: &String) -> (l: Option<String>)
        requires
            self.wf(),
        ensures
            l matches Some(l) ==> self@.contains((r@, l@)),
            l is None ==> !knows_remote(self@, r@),
    {
        match CommitMap::position(&self.remotes, r) {
            Some(i) => {
                let l = self.locals[i].clone();
                assert(self@[i as int] == (r@, l@));
                Some(l)
            },
            None => {
                assert(!knows_remote(self@, r@)) by {
                    assert forall|i: int| 0 <= i < self@.len() implies (#[trigger] self@[i]).0
                        != r@ by {
                        assert(self.remotes@[i]@ != r@);
                    }
                }
                None
            },
        }
    }

    /// The remote id paired with the local id `l`.
    pub fn remote_of(&self, l: &String) -> (r: Option<String>)
        requires
            self.wf(),
        ensures
            r matches Some(r) ==> self@.contains((r@, l@)),
            r is None ==> !knows_local(self@, l@),
    {
        match CommitMap::position(&self.locals, l) {
            Some(i) => {
                let r = self.remotes[i].clone();
                assert(self@[i as int] == (r@, l@));
                Some(r)
            },
            None => {
                assert(!knows_local(self@, l@)) by {
                    assert forall|i: int| 0 <= i < self@.len() implies (#[trigger] self@[i]).1
                        != l@ by {
                        assert(self.locals@[i]@ != l@);
                    }
                }
                None
            },
        }
    }

    /// Learns the pair `(r, l)` unless one of the two ids is already paired;
    /// returns whether it was learnt.
    pub fn insert(&mut self, r: String, l: String) -> (b: bool)
        requires
            old(self).wf(),
        ensures
            final(self).wf(),
            final(self)@ == learn(old(self)@, r@, l@),
            b == !(knows_remote(old(self)@, r@) || knows_local(old(self)@, l@)),
    {
        if self.contains_remote(&r) {
            return false;
        }
        match CommitMap::position(&self.locals, &l) {
            Some(i) => {
                assert(self@[i as int].1 == l@);
                return false;
            },
            None => {},
        }
        assert(!knows_local(self@, l@)) by {
            assert forall|i: int| 0 <= i < self@.len() implies (#[trigger] self@[i]).1 != l@ by {
                assert(self.locals@[i]@ != l@);
            }
        }
        let ghost before = self@;
        self.remotes.push(r);
        self.locals.push(l);
        assert(self@ =~= before.push((r@, l@)));
        true
    }

    /// The local ids, in the order they were learnt: what the cache file
    /// lists.
    pub fn local_ids(&self) -> (v: Vec<String>)
        requires
            self.wf(),
        ensures
            v@.len() == self@.len(),
            forall|i: int| 0 <= i < v@.len() ==> (#[trigger] v@[i])@ == self@[i].1,
    {
        let mut v: Vec<String> = Vec::new();
        let mut i: usize = 0;
        while i < self.locals.len()
            invariant
                self.wf(),
                i <= self.locals@.len(),
                v@.len() == i,
                forall|k: int| 0 <= k < i ==> (#[trigger] v@[k])@ == self@[k].1,
            decreases self.locals.len() - i,
        {
            v.push(self.locals[i].clone());
            i = i + 1;
        }
        v
    }

    /// Learns, in order, the pair that each marked local commit gives:
    /// `locals[i]` is a local id and `msgs[i]` its message. Pairs already
    /// known win.
    pub fn learn_markers(&mut self, locals: &Vec<String>, msgs: &Vec<String>)
        requires
            old(self).wf(),
            locals@.len() == msgs@.len(),
        ensures
            final(self).wf(),
            final(self)@ == learn_all(
                old(self)@,
                marked_pairs(
                    locals@.map_values(|s: String| s@),
                    msgs@.map_values(|s: String| s@),
                ),
            ),
    {
        let ghost start = self@;
        let ghost lv = locals@.map_values(|s: String| s@);
        let ghost mv = msgs@.map_values(|s: String| s@);
        let mut i: usize = 0;
        while i < locals.len()
            invariant
                self.wf(),
                i <= locals@.len(),
                locals@.len() == msgs@.len(),
                lv == locals@.map_values(|s: String| s@),
                mv == msgs@.map_values(|s: String| s@),
                self@ == learn_all(
                    start,
                    marked_pairs(lv.subrange(0, i as int), mv.subrange(0, i as int)),
                ),
            decreases locals.len() - i,
        {
            let ghost l1 = lv.subrange(0, i as int + 1);
            let ghost m1 = mv.subrange(0, i as int + 1);
            assert(l1.drop_last() =~= lv.subrange(0, i as int));
            assert(m1.drop_last() =~= mv.subrange(0, i as int));
            match provenance_of(msgs[i].as_str()) {
                Some(r) => {
                    let ghost p = marked_pairs(l1.drop_last(), m1.drop_last());
                    assert(marked_pairs(l1, m1) == p.push((r@, locals@[i as int]@)));
                    assert(p.push((r@, locals@[i as int]@)).drop_last() =~= p);
                    self.insert(r, locals[i].clone());
                },
                None => {},
            }
            i = i + 1;
        }
        assert(lv.subrange(0, i as int) =~= lv);
        assert(mv.subrange(0, i as int) =~= mv);
    }
}

/// Whether a commit's message is there and carries a marker.
pub open spec fn marked(msg: Option<Seq<char>>) -> bool {
    match msg {
        Some(m) => marker_id(m) is Some,
        None => false,
    }
}

/// Whether the message of each cached commit is there and carries a marker.
pub open spec fn all_marked(msgs: Seq<Option<Seq<char>>>) -> bool {
    forall|i: int| 0 <= i < msgs.len() ==> marked(#[trigger] msgs[i])
}

pub open spec fn opt_views(v: Seq<Option<String>>) -> Seq<Option<Seq<char>>> {
    v.map_values(|o: Option<String>| match o {
        Some(s) => Some(s@),
        None => None,
    })
}

/// The pairs a cache gives: each listed local id with the remote id its
/// message names.
pub open spec fn cache_pairs(ids: Seq<Seq<char>>, msgs: Seq<Option<Seq<char>>>) -> Seq<Pair> {
    Seq::new(ids.len(), |i: int| (marker_id(msgs[i]->Some_0)->Some_0, ids[i]))
}

/// Builds the map from the cache file: `ids` are the local ids it lists and
/// `msgs[i]` the message of the commit `ids[i]`, `None` where no such commit
/// exists. Fails with `CacheCorrupt` on the first id whose commit is missing
/// or carries no marker.
pub fn load_cache(ids: &Vec<String>, msgs: &Vec<Option<String>>) -> (r: Result<CommitMap, RipitError>)
    requires
        ids@.len() == msgs@.len(),
    ensures
        r is Ok <==> all_marked(opt_views(msgs@)),
        r matches Ok(m) ==> m.wf() && m@ == learn_all(
            Seq::<Pair>::empty(),
            cache_pairs(ids@.map_values(|s: String| s@), opt_views(msgs@)),
        ),
        r matches Err(e) ==> e matches RipitError::CacheCorrupt { id } && exists|i: int|
            0 <= i < ids@.len() && ids@[i]@ == id@ && !marked(#[trigger] opt_views(msgs@)[i]),
{
    let ghost iv = ids@.map_values(|s: String| s@);
    let ghost mv = opt_views(msgs@);
    let mut m = CommitMap::new();
    let mut i: usize = 0;
    while i < ids.len()
        invariant
            m.wf(),
            i <= ids@.len(),
            ids@.len() == msgs@.len(),
            iv == ids@.map_values(|s: String| s@),
            mv == opt_views(msgs@),
            forall|k: int| 0 <= k < i ==> marked(#[trigger] mv[k]),
            m@ == learn_all(
                Seq::<Pair>::empty(),
                cache_pairs(iv, mv).subrange(0, i as int),
            ),
        decreases ids.len() - i,
    {
        let ghost sub = cache_pairs(iv, mv).subrange(0, i as int + 1);
        assert(sub.drop_last() =~= cache_pairs(iv, mv).subrange(0, i as int));
        let found = match &msgs[i] {
            Some(text) => provenance_of(text.as_str()),
            None => None,
        };
        match found {
            Some(r) => {
                assert(sub.last() == (r@, ids@[i as int]@));
                m.insert(r, ids[i].clone());
            },
            None => {
                assert(!marked(mv[i as int]));
                return Err(RipitError::CacheCorrupt { id: ids[i].clone() });
            },
        }
        i = i + 1;
    }
    assert(cache_pairs(iv, mv).subrange(0, i as int) =~= cache_pairs(iv, mv));
    Ok(m)
}

} // verus!
