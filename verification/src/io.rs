//! The line handling of console input.

use vstd::prelude::*;
use crate::text::{chars_of, string_of_range};

verus! {

/// A line as read from the console, without its line ending: one `\n` at the
/// end is dropped, and then one `\r` before it, if there is one.
pub open spec fn without_line_ending(line: Seq<char>) -> Seq<char> {
    if line.len() > 0 && line.last() == '\n' {
        let l = line.drop_last();
        if l.len() > 0 && l.last() == '\r' {
            l.drop_last()
        } else {
            l
        }
    } else {
        line
    }
}

/// `io_input`'s handling of the line it read: the line without its
/// trailing `\n` or `\r\n`.
pub fn strip_line_ending(line: &str) -> (r: String)
    ensures
        r@ == without_line_ending(line@),
{
    let v = chars_of(line);
    let mut end = v.len();
    if end > 0 && v[end - 1] == '\n' {
        end = end - 1;
        if end > 0 && v[end - 1] == '\r' {
            end = end - 1;
        }
    }
    let r = string_of_range(&v, 0, end);
    proof {
        if v@.len() > 0 {
            assert(v@.drop_last() =~= v@.subrange(0, v@.len() - 1));
        }
        if v@.len() > 1 {
            assert(v@.subrange(0, v@.len() - 1).drop_last() =~= v@.subrange(0, v@.len() - 2));
        }
    }
    assert(v@.subrange(0, v@.len() as int) =~= v@);
    r
}

/// A line typed at the console comes back without its line ending: a line
/// ended by `\r\n` loses both characters, a line ended by a lone `\n` loses
/// it (what stands before it is kept, whatever it is unless a `\r`), and a
/// line that does not end with `\n` is kept whole.
pub proof fn law_line_ending(l: Seq<char>)
    ensures
        without_line_ending(l + seq!['\r', '\n']) == l,
        l.len() == 0 || l.last() != '\r' ==> without_line_ending(l + seq!['\n']) == l,
        l.len() == 0 || l.last() != '\n' ==> without_line_ending(l) == l,
{
    let a = l + seq!['\r', '\n'];
    assert(a.drop_last() =~= l.push('\r'));
    assert(l.push('\r').drop_last() =~= l);
    let b = l + seq!['\n'];
    assert(b.drop_last() =~= l);
}

} // verus!
