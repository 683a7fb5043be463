//! Reading the answer to the confirmation prompt.
use vstd::prelude::*;

verus! {

/// The text with leading and trailing white space removed.
pub uninterp spec fn trimmed(s: Seq<char>) -> Seq<char>;

/// Relies on `str::trim`: the slice without leading and trailing white
/// space, a part of `s`; the result depends on the characters alone.
#[verifier::external_body]
fn trim(s: &str) -> (r: &str)
    ensures
        r@ == trimmed(s@),
        r@.len() <= s@.len(),
{
    s.trim()
}

/// What an answer means: `y` or `Y` is yes, `n` or `N` is no, anything
/// else asks again.
pub open spec fn answer(t: Seq<char>) -> Option<bool> {
    if t == seq!['y'] || t == seq!['Y'] {
        Some(true)
    } else if t == seq!['n'] || t == seq!['N'] {
        Some(false)
    } else {
        None
    }
}

/// Reads an answer that has been trimmed already.
pub fn answer_of(t: &str) -> (r: Option<bool>)
    ensures
        r == answer(t@),
{
    if t.unicode_len() != 1 {
        assert(t@ != seq!['y'] && t@ != seq!['Y'] && t@ != seq!['n'] && t@ != seq!['N']);
        return None;
    }
    let c = t.get_char(0);
    assert(t@ =~= seq![c]);
    if c == 'y' || c == 'Y' {
        Some(true)
    } else if c == 'n' || c == 'N' {
        Some(false)
    } else {
        assert(seq![c] != seq!['y']) by {
            assert(seq![c][0] != seq!['y'][0]);
        }
        assert(seq![c] != seq!['Y']) by {
            assert(seq![c][0] != seq!['Y'][0]);
        }
        assert(seq![c] != seq!['n']) by {
            assert(seq![c][0] != seq!['n'][0]);
        }
        assert(seq![c] != seq!['N']) by {
            assert(seq![c][0] != seq!['N'][0]);
        }
        None
    }
}

/// Reads a line typed at the prompt: `Some(true)` to go on, `Some(false)`
/// to stop, `None` to ask again.
pub fn read_answer(line: &str) -> (r: Option<bool>)
    ensures
        r == answer(trimmed(line@)),
{
    answer_of(trim(line))
}

} // verus!
