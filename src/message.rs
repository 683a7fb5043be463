//! Rewriting commit messages and reading the provenance marker back.
use vstd::prelude::*;
use crate::patterns::{set_matches, Filters};
use crate::text::{
    join_lines, lemma_split_after_newline, lemma_split_one_line, lines_of, one_line, split_lines,
    views,
};

verus! {

/// `rip-it: `, the start of the provenance line.
pub open spec fn marker_prefix() -> Seq<char> {
    seq!['r', 'i', 'p', '-', 'i', 't', ':', ' ']
}

/// The provenance line for `id`, newline included.
pub open spec fn marker_line(id: Seq<char>) -> Seq<char> {
    marker_prefix() + id + seq!['\n']
}

/// The lines of `ls` that survive, `drop[i]` saying whether line `i` is
/// dropped, with runs of blank lines collapsed to one and leading blank
/// lines removed.
pub open spec fn compact(ls: Seq<Seq<char>>, drop: Seq<bool>) -> Seq<Seq<char>>
    decreases ls.len(),
{
    if ls.len() == 0 {
        Seq::<Seq<char>>::empty()
    } else {
        let prev = compact(ls.drop_last(), drop.drop_last());
        let l = ls.last();
        if drop.last() || (l.len() == 0 && (prev.len() == 0 || prev.last().len() == 0)) {
            prev
        } else {
            prev.push(l)
        }
    }
}

/// For each line, whether a pattern of `pats` matches it.
pub open spec fn drop_flags(pats: Seq<Seq<char>>, ls: Seq<Seq<char>>) -> Seq<bool> {
    ls.map_values(|l: Seq<char>| set_matches(pats, l))
}

/// Drops a blank last line.
pub open spec fn trim_end(ls: Seq<Seq<char>>) -> Seq<Seq<char>> {
    if ls.len() > 0 && ls.last().len() == 0 {
        ls.drop_last()
    } else {
        ls
    }
}

/// The body lines kept from `msg` under the patterns `pats`.
pub open spec fn body_lines(pats: Seq<Seq<char>>, msg: Seq<char>) -> Seq<Seq<char>> {
    trim_end(compact(split_lines(msg), drop_flags(pats, split_lines(msg))))
}

/// A body followed by one blank line and the provenance line of `id`.
pub open spec fn with_marker(body: Seq<Seq<char>>, id: Seq<char>) -> Seq<char> {
    if body.len() == 0 {
        marker_line(id)
    } else {
        join_lines(body) + seq!['\n', '\n'] + marker_line(id)
    }
}

/// The message of the local copy of a remote commit with message `msg` and
/// id `id`.
pub open spec fn rewritten(pats: Seq<Seq<char>>, msg: Seq<char>, id: Seq<char>) -> Seq<char> {
    with_marker(body_lines(pats, msg), id)
}

/// The message made from the lines `ls` of a remote commit's message, where
/// `drop[i]` says whether line `i` is dropped, for the remote commit `id`;
/// with the `(uprooted)` line when `uprooted`.
pub open spec fn compose(ls: Seq<Seq<char>>, drop: Seq<bool>, uprooted: bool, id: Seq<char>) -> Seq<
    char,
> {
    let body = trim_end(compact(ls, drop));
    with_marker(
        if uprooted {
            body.push(uprooted_line())
        } else {
            body
        },
        id,
    )
}

fn str_of(s: &str) -> (r: String)
    ensures
        r@ == s@,
{
    String::from_str(s)
}

/// Joins `body` and appends the provenance line of `id`.
fn finish_message(body: &Vec<String>, id: &str) -> (r: String)
    ensures
        r@ == with_marker(views(body@), id@),
{
    let mut out = String::new();
    let mut j: usize = 0;
    while j < body.len()
        invariant
            j <= body.len(),
            out@ == join_lines(views(body@).subrange(0, j as int)),
        decreases body.len() - j,
    {
        let ghost sub = views(body@).subrange(0, j as int + 1);
        assert(sub.drop_last() =~= views(body@).subrange(0, j as int));
        if j > 0 {
            out.append("\n");
            proof { reveal_strlit("\n"); }
        }
        out.append(body[j].as_str());
        j = j + 1;
        proof {
            if j == 1 {
                assert(out@ =~= sub[0]);
            } else {
                assert(out@ =~= join_lines(sub.drop_last()) + seq!['\n'] + sub.last());
            }
        }
    }
    assert(views(body@).subrange(0, body.len() as int) =~= views(body@));
    if body.len() > 0 {
        out.append("\n\n");
        proof { reveal_strlit("\n\n"); }
    }
    let ghost before = out@;
    out.append("rip-it: ");
    proof { reveal_strlit("rip-it: "); }
    out.append(id);
    out.append("\n");
    proof {
        reveal_strlit("\n");
        assert(out@ =~= before + marker_line(id@));
    }
    out
}

fn drop_flags_exec(filters: &Filters, lines: &Vec<String>) -> (r: Vec<bool>)
    ensures
        r@ == drop_flags(filters.patterns(), views(lines@)),
{
    let mut r: Vec<bool> = Vec::new();
    let mut j: usize = 0;
    while j < lines.len()
        invariant
            j <= lines.len(),
            r@ == drop_flags(filters.patterns(), views(lines@)).subrange(0, j as int),
        decreases lines.len() - j,
    {
        r.push(filters.is_match(lines[j].as_str()));
        j = j + 1;
        assert(r@ =~= drop_flags(filters.patterns(), views(lines@)).subrange(0, j as int));
    }
    assert(r@ =~= drop_flags(filters.patterns(), views(lines@)));
    r
}

/// Builds the message of a local copy from the lines of the remote message:
/// drops each line `i` with `drop[i]`, collapses runs of blank lines, removes
/// leading and trailing blank lines, adds the `(uprooted)` line when
/// `uprooted`, and appends the provenance line of `id` after one blank line.
pub fn message_from_lines(lines: &Vec<String>, drop: &Vec<bool>, uprooted: bool, id: &str) -> (r:
    String)
    requires
        lines@.len() == drop@.len(),
    ensures
        r@ == compose(views(lines@), drop@, uprooted, id@),
{
    let mut kept: Vec<String> = Vec::new();
    let mut j: usize = 0;
    while j < lines.len()
        invariant
            j <= lines.len(),
            lines@.len() == drop@.len(),
            views(kept@) == compact(
                views(lines@).subrange(0, j as int),
                drop@.subrange(0, j as int),
            ),
        decreases lines.len() - j,
    {
        let ghost sub = views(lines@).subrange(0, j as int + 1);
        assert(sub.drop_last() =~= views(lines@).subrange(0, j as int));
        assert(drop@.subrange(0, j as int + 1).drop_last() =~= drop@.subrange(0, j as int));
        let line = lines[j].as_str();
        let blank = line.unicode_len() == 0;
        let after_blank = kept.len() == 0 || kept[kept.len() - 1].unicode_len() == 0;
        if !drop[j] && !(blank && after_blank) {
            let ghost before = kept@;
            kept.push(str_of(line));
            assert(views(kept@) =~= views(before).push(sub.last()));
        }
        j = j + 1;
    }
    assert(views(lines@).subrange(0, lines.len() as int) =~= views(lines@));
    assert(drop@.subrange(0, lines.len() as int) =~= drop@);
    if kept.len() > 0 && kept[kept.len() - 1].unicode_len() == 0 {
        let ghost before = kept@;
        kept.pop();
        assert(views(kept@) =~= views(before).drop_last());
    }
    if uprooted {
        let ghost before = kept@;
        proof { reveal_strlit("(uprooted)"); }
        let tag = String::from_str("(uprooted)");
        assert(tag@ =~= uprooted_line());
        kept.push(tag);
        assert(views(kept@) =~= views(before).push(uprooted_line()));
    }
    finish_message(&kept, id)
}

/// Rewrites the message `msg` of the remote commit `id`: drops each line that
/// a pattern of `filters` matches, collapses runs of blank lines, removes
/// leading and trailing blank lines, and appends the provenance line after
/// one blank line.
pub fn filter_message(filters: &Filters, msg: &str, id: &str) -> (r: String)
    ensures
        r@ == rewritten(filters.patterns(), msg@, id@),
{
    let lines = lines_of(msg);
    let drop = drop_flags_exec(filters, &lines);
    message_from_lines(&lines, &drop, false, id)
}

/// `(uprooted)`, the line that marks a commit cherry-picked across an
/// unknown parent.
pub open spec fn uprooted_line() -> Seq<char> {
    seq!['(', 'u', 'p', 'r', 'o', 'o', 't', 'e', 'd', ')']
}

/// The message of a cherry-picked copy: the rewritten body, then the
/// `(uprooted)` line, then the provenance line.
pub open spec fn rewritten_uprooted(pats: Seq<Seq<char>>, msg: Seq<char>, id: Seq<char>) -> Seq<
    char,
> {
    with_marker(body_lines(pats, msg).push(uprooted_line()), id)
}

/// Rewrites `msg` as `filter_message` does, with the `(uprooted)` line
/// before the provenance line.
pub fn filter_uprooted_message(filters: &Filters, msg: &str, id: &str) -> (r: String)
    ensures
        r@ == rewritten_uprooted(filters.patterns(), msg@, id@),
{
    let lines = lines_of(msg);
    let drop = drop_flags_exec(filters, &lines);
    message_from_lines(&lines, &drop, true, id)
}

/// `Bootstrap repository from `, the start of a bootstrap message.
pub open spec fn bootstrap_prefix() -> Seq<char> {
    seq![
        'B', 'o', 'o', 't', 's', 't', 'r', 'a', 'p', ' ', 'r', 'e', 'p', 'o', 's', 'i', 't', 'o',
        'r', 'y', ' ', 'f', 'r', 'o', 'm', ' ',
    ]
}

/// The message of the bootstrap commit made from the remote commit `id`.
pub open spec fn bootstrap_text(id: Seq<char>) -> Seq<char> {
    bootstrap_prefix() + id + seq!['\n', '\n'] + marker_line(id)
}

/// The message of the bootstrap commit made from the remote commit `id`.
pub fn bootstrap_message(id: &str) -> (r: String)
    ensures
        r@ == bootstrap_text(id@),
{
    let mut out = String::from_str("Bootstrap repository from ");
    proof { reveal_strlit("Bootstrap repository from "); }
    out.append(id);
    out.append("\n\nrip-it: ");
    proof { reveal_strlit("\n\nrip-it: "); }
    out.append(id);
    out.append("\n");
    proof {
        reveal_strlit("\n");
        assert(out@ =~= bootstrap_text(id@));
    }
    out
}

/// The last line of `ls` that is not blank, if any.
pub open spec fn last_nonblank(ls: Seq<Seq<char>>) -> Option<Seq<char>>
    decreases ls.len(),
{
    if ls.len() == 0 {
        None
    } else if ls.last().len() > 0 {
        Some(ls.last())
    } else {
        last_nonblank(ls.drop_last())
    }
}

/// The remote id that the message `msg` names: its last non-blank line, when
/// that line is `rip-it: ` followed by at least one character.
pub open spec fn marker_id(msg: Seq<char>) -> Option<Seq<char>> {
    match last_nonblank(split_lines(msg)) {
        Some(l) => if l.len() > marker_prefix().len() && l.subrange(0, marker_prefix().len() as int)
            == marker_prefix() {
            Some(l.subrange(marker_prefix().len() as int, l.len() as int))
        } else {
            None
        },
        None => None,
    }
}

/// Reads the provenance marker of a local commit's message: the remote id
/// that its last non-blank line names.
pub fn provenance_of(msg: &str) -> (r: Option<String>)
    ensures
        r matches Some(id) ==> marker_id(msg@) == Some(id@),
        r is None ==> marker_id(msg@) is None,
{
    let lines = lines_of(msg);
    let mut k: usize = lines.len();
    assert(views(lines@).subrange(0, lines.len() as int) =~= views(lines@));
    while k > 0 && lines[k - 1].unicode_len() == 0
        invariant
            k <= lines.len(),
            last_nonblank(views(lines@)) == last_nonblank(views(lines@).subrange(0, k as int)),
        decreases k,
    {
        let ghost sub = views(lines@).subrange(0, k as int);
        assert(sub.drop_last() =~= views(lines@).subrange(0, k as int - 1));
        k = k - 1;
    }
    assert(views(lines@).subrange(0, lines.len() as int) =~= views(lines@));
    if k == 0 {
        assert(views(lines@).subrange(0, 0) =~= Seq::<Seq<char>>::empty());
        return None;
    }
    let line = lines[k - 1].as_str();
    let n = line.unicode_len();
    assert(views(lines@).subrange(0, k as int).last() == line@);
    assert(last_nonblank(views(lines@)) == Some(line@));
    let prefix = "rip-it: ";
    proof { reveal_strlit("rip-it: "); }
    assert(marker_prefix().len() == 8);
    if n <= 8 {
        return None;
    }
    let mut i: usize = 0;
    while i < 8
        invariant
            i <= 8 < n,
            n == line@.len(),
            prefix@ == marker_prefix(),
            last_nonblank(split_lines(msg@)) == Some(line@),
            line@.subrange(0, i as int) == marker_prefix().subrange(0, i as int),
        decreases 8 - i,
    {
        if line.get_char(i) != prefix.get_char(i) {
            assert(line@.subrange(0, 8)[i as int] != marker_prefix()[i as int]);
            assert(line@.subrange(0, 8) != marker_prefix());
            return None;
        }
        assert(line@.subrange(0, i as int + 1) =~= marker_prefix().subrange(0, i as int + 1));
        i = i + 1;
    }
    assert(marker_prefix().subrange(0, 8) =~= marker_prefix());
    Some(str_of(line.substring_char(8, n)))
}

/// A text that is empty or ends with a newline, followed by the provenance
/// line of `id`, names `id`.
proof fn lemma_marker_at_end(a: Seq<char>, id: Seq<char>)
    requires
        id.len() > 0,
        one_line(id),
        a.len() == 0 || a.last() == '\n',
    ensures
        marker_id(a + marker_line(id)) == Some(id),
{
    let line = marker_prefix() + id;
    assert(one_line(line)) by {
        assert forall|i: int| 0 <= i < line.len() implies line[i] != '\n' by {
            if i >= 8 {
                assert(line[i] == id[i - 8]);
            }
        }
    }
    let s = a + marker_line(id);
    assert(s.drop_last() =~= a + line);
    assert(s.last() == '\n');
    if a.len() == 0 {
        assert(a + line =~= line);
        lemma_split_one_line(line);
    } else {
        let a0 = a.drop_last();
        assert(a + line =~= a0 + seq!['\n'] + line);
        lemma_split_after_newline(a0, line);
    }
    let ls = split_lines(s);
    assert(ls == split_lines(a + line).push(Seq::<char>::empty()));
    assert(split_lines(a + line).last() == line);
    assert(ls.drop_last() =~= split_lines(a + line));
    assert(line.len() > 0);
    assert(ls.last().len() == 0);
    assert(last_nonblank(ls) == last_nonblank(ls.drop_last()));
    assert(ls.drop_last().last() == line);
    assert(last_nonblank(ls.drop_last()) == Some(line));
    assert(line.subrange(0, 8) =~= marker_prefix());
    assert(line.subrange(8, line.len() as int) =~= id);
}

/// Every message this library writes for a remote commit, plain, uprooted
/// or bootstrap, names that commit in its provenance marker.
pub proof fn lemma_marker_names_source(pats: Seq<Seq<char>>, msg: Seq<char>, id: Seq<char>)
    requires
        id.len() > 0,
        one_line(id),
    ensures
        marker_id(rewritten(pats, msg, id)) == Some(id),
        marker_id(rewritten_uprooted(pats, msg, id)) == Some(id),
        marker_id(bootstrap_text(id)) == Some(id),
{
    let body = body_lines(pats, msg);
    if body.len() == 0 {
        assert(Seq::<char>::empty() + marker_line(id) =~= marker_line(id));
        lemma_marker_at_end(Seq::<char>::empty(), id);
    } else {
        let a = join_lines(body) + seq!['\n', '\n'];
        assert(a + marker_line(id) =~= with_marker(body, id));
        lemma_marker_at_end(a, id);
    }
    let up = body.push(uprooted_line());
    let a = join_lines(up) + seq!['\n', '\n'];
    assert(a + marker_line(id) =~= with_marker(up, id));
    lemma_marker_at_end(a, id);
    let b = bootstrap_prefix() + id + seq!['\n', '\n'];
    assert(b + marker_line(id) =~= bootstrap_text(id));
    lemma_marker_at_end(b, id);
}

proof fn lemma_compact_without_blanks(pats: Seq<Seq<char>>, ls: Seq<Seq<char>>)
    requires
        forall|i: int| 0 <= i < ls.len() ==> ls[i].len() > 0,
    ensures
        compact(ls, drop_flags(pats, ls)) == ls.filter(|l: Seq<char>| !set_matches(pats, l)),
        forall|i: int|
            0 <= i < compact(ls, drop_flags(pats, ls)).len() ==> compact(
                ls,
                drop_flags(pats, ls),
            )[i].len() > 0,
    decreases ls.len(),
{
    if ls.len() > 0 {
        lemma_compact_without_blanks(pats, ls.drop_last());
        assert(drop_flags(pats, ls).drop_last() =~= drop_flags(pats, ls.drop_last()));
        let f = |l: Seq<char>| !set_matches(pats, l);
        assert(ls.last().len() > 0);
        reveal(Seq::filter);
        assert(ls.filter(f) == if f(ls.last()) {
            ls.drop_last().filter(f).push(ls.last())
        } else {
            ls.drop_last().filter(f)
        });
    }
}

/// In a message without blank lines, the filter drops exactly the lines that
/// a pattern matches and keeps the others in order.
pub proof fn lemma_filter_drops_matched_lines(pats: Seq<Seq<char>>, msg: Seq<char>)
    requires
        forall|i: int|
            0 <= i < split_lines(msg).len() ==> (#[trigger] split_lines(msg)[i]).len() > 0,
    ensures
        body_lines(pats, msg) == split_lines(msg).filter(|l: Seq<char>| !set_matches(pats, l)),
{
    lemma_compact_without_blanks(pats, split_lines(msg));
    let c = compact(split_lines(msg), drop_flags(pats, split_lines(msg)));
    if c.len() > 0 {
        assert(c.last().len() > 0);
    }
}

} // verus!
