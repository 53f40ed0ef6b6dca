//! Normalization of a raw input line: stripping the trailing line break.

use vstd::prelude::*;

verus! {

/// `s` with one trailing `'\n'` removed, and, if that newline was removed,
/// one `'\r'` directly before it removed as well.
pub open spec fn trimmed(s: Seq<char>) -> Seq<char> {
    if s.len() > 0 && s.last() == '\n' {
        let t = s.drop_last();
        if t.len() > 0 && t.last() == '\r' {
            t.drop_last()
        } else {
            t
        }
    } else {
        s
    }
}

/// Removes a trailing `"\n"` or `"\r\n"` from `s`; any other string is left
/// unchanged.
pub fn trim_newline(s: &mut String)
    ensures
        final (s)@ == trimmed(old(s)@),
{
    let n: usize = s.as_str().unicode_len();
    if n > 0 && s.as_str().get_char(n - 1) == '\n' {
        let mut m: usize = n - 1;
        if m > 0 && s.as_str().get_char(m - 1) == '\r' {
            m = m - 1;
        }
        let t = s.as_str().substring_char(0, m).to_owned();
        proof {
            assert(old(s)@.drop_last() =~= old(s)@.subrange(0, n - 1));
            if n > 1 && old(s)@[n - 2] == '\r' {
                assert(old(s)@.drop_last().drop_last() =~= old(s)@.subrange(0, n - 2));
            }
            assert(t@ =~= trimmed(old(s)@));
        }
        *s = t;
    }
}

} // verus!
