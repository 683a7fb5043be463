//! The cache file: the local ids of replicated commits, one per line, each
//! line ending with a newline.
use vstd::prelude::*;
use crate::text::{lemma_split_after_newline, lemma_split_one_line, lines_of, one_line, split_lines, views};

verus! {

/// The cache file that lists `ids` in order.
pub open spec fn cache_text(ids: Seq<Seq<char>>) -> Seq<char>
    decreases ids.len(),
{
    if ids.len() == 0 {
        Seq::<char>::empty()
    } else {
        cache_text(ids.drop_last()) + ids.last() + seq!['\n']
    }
}

/// The non-blank lines of `ls`, in order.
pub open spec fn nonblank(ls: Seq<Seq<char>>) -> Seq<Seq<char>>
    decreases ls.len(),
{
    if ls.len() == 0 {
        Seq::<Seq<char>>::empty()
    } else if ls.last().len() == 0 {
        nonblank(ls.drop_last())
    } else {
        nonblank(ls.drop_last()).push(ls.last())
    }
}

/// The ids a cache file lists: its non-blank lines.
pub open spec fn cache_entries(s: Seq<char>) -> Seq<Seq<char>> {
    nonblank(split_lines(s))
}

/// An id as the cache holds it: not empty, on one line.
pub open spec fn cacheable(id: Seq<char>) -> bool {
    id.len() > 0 && one_line(id)
}

/// Renders the cache file for `ids`.
pub fn cache_contents(ids: &Vec<String>) -> (r: String)
    ensures
        r@ == cache_text(views(ids@)),
{
    let mut out = String::new();
    let mut i: usize = 0;
    while i < ids.len()
        invariant
            i <= ids.len(),
            out@ == cache_text(views(ids@).subrange(0, i as int)),
        decreases ids.len() - i,
    {
        let ghost sub = views(ids@).subrange(0, i as int + 1);
        assert(sub.drop_last() =~= views(ids@).subrange(0, i as int));
        out.append(ids[i].as_str());
        out.append("\n");
        proof {
            reveal_strlit("\n");
            assert(out@ =~= cache_text(sub));
        }
        i = i + 1;
    }
    assert(views(ids@).subrange(0, ids.len() as int) =~= views(ids@));
    out
}

/// Reads the ids that a cache file lists, skipping blank lines.
pub fn parse_cache(contents: &str) -> (r: Vec<String>)
    ensures
        views(r@) == cache_entries(contents@),
{
    let lines = lines_of(contents);
    let mut out: Vec<String> = Vec::new();
    let mut i: usize = 0;
    while i < lines.len()
        invariant
            i <= lines.len(),
            views(out@) == nonblank(views(lines@).subrange(0, i as int)),
        decreases lines.len() - i,
    {
        let ghost sub = views(lines@).subrange(0, i as int + 1);
        assert(sub.drop_last() =~= views(lines@).subrange(0, i as int));
        if lines[i].unicode_len() > 0 {
            let ghost before = out@;
            out.push(lines[i].clone());
            assert(views(out@) =~= views(before).push(sub.last()));
        }
        i = i + 1;
    }
    assert(views(lines@).subrange(0, lines.len() as int) =~= views(lines@));
    out
}

proof fn lemma_split_cache_text(ids: Seq<Seq<char>>)
    requires
        forall|i: int| 0 <= i < ids.len() ==> cacheable(#[trigger] ids[i]),
    ensures
        split_lines(cache_text(ids)) == ids.push(Seq::<char>::empty()),
        cache_text(ids).len() == 0 || cache_text(ids).last() == '\n',
    decreases ids.len(),
{
    if ids.len() == 0 {
        assert(split_lines(Seq::<char>::empty()) =~= seq![Seq::<char>::empty()]);
        assert(ids.push(Seq::<char>::empty()) =~= seq![Seq::<char>::empty()]);
    } else {
        let ids0 = ids.drop_last();
        let id = ids.last();
        assert(cacheable(ids[ids.len() - 1]));
        lemma_split_cache_text(ids0);
        let t = cache_text(ids0);
        let s = cache_text(ids);
        assert(s.drop_last() =~= t + id);
        if t.len() == 0 {
            assert(t + id =~= id);
            lemma_split_one_line(id);
        } else {
            let t0 = t.drop_last();
            assert(t =~= t0 + seq!['\n'] + Seq::<char>::empty());
            lemma_split_after_newline(t0, Seq::<char>::empty());
            assert(split_lines(t) == split_lines(t0).push(Seq::<char>::empty()));
            assert(split_lines(t0).push(Seq::<char>::empty()).drop_last() =~= split_lines(t0));
            assert(ids0.push(Seq::<char>::empty()).drop_last() =~= ids0);
            assert(split_lines(t0) =~= ids0);
            assert(t + id =~= t0 + seq!['\n'] + id);
            lemma_split_after_newline(t0, id);
        }
        assert(ids0.push(id) =~= ids);
    }
}

proof fn lemma_nonblank_all(ids: Seq<Seq<char>>)
    requires
        forall|i: int| 0 <= i < ids.len() ==> (#[trigger] ids[i]).len() > 0,
    ensures
        nonblank(ids) == ids,
    decreases ids.len(),
{
    if ids.len() > 0 {
        lemma_nonblank_all(ids.drop_last());
        assert(ids.drop_last().push(ids.last()) =~= ids);
    }
}

/// Reading back the cache file written for `ids` gives `ids`, when each id
/// is a non-empty single line.
pub proof fn lemma_cache_round_trip(ids: Seq<Seq<char>>)
    requires
        forall|i: int| 0 <= i < ids.len() ==> cacheable(#[trigger] ids[i]),
    ensures
        cache_entries(cache_text(ids)) == ids,
{
    lemma_split_cache_text(ids);
    assert forall|i: int| 0 <= i < ids.len() implies (#[trigger] ids[i]).len() > 0 by {
        assert(cacheable(ids[i]));
    }
    lemma_nonblank_all(ids);
    assert(ids.push(Seq::<char>::empty()).drop_last() =~= ids);
}

/// Appending ids to the cache keeps its earlier contents verbatim.
pub proof fn lemma_cache_append(ids: Seq<Seq<char>>, more: Seq<Seq<char>>)
    ensures
        cache_text(ids + more) == cache_text(ids) + cache_text(more),
    decreases more.len(),
{
    if more.len() == 0 {
        assert(ids + more =~= ids);
        assert(cache_text(ids) + cache_text(more) =~= cache_text(ids));
    } else {
        lemma_cache_append(ids, more.drop_last());
        assert((ids + more).drop_last() =~= ids + more.drop_last());
        assert(cache_text(ids + more) =~= cache_text(ids) + cache_text(more));
    }
}

} // verus!
