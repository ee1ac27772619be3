//! String functions: case mapping, trimming, splitting, joining, searching,
//! replacing, indexing by character and reversing.

use vstd::prelude::*;
use crate::text::{append_str, back_ws, is_white_space, lemma_back_ws, lemma_skip_ws, skip_ws, chars_of, decimal, decimal_string, string_of, string_of_range, trimmed, trimmed_chars};

verus! {

broadcast use vstd::string::group_string_axioms;

/// The character sequences of a list of strings.
pub open spec fn views(v: Seq<String>) -> Seq<Seq<char>> {
    v.map_values(|x: String| x@)
}

/// `p` occurs in `s` starting at index `i`.
pub open spec fn occurs_at(s: Seq<char>, p: Seq<char>, i: int) -> bool {
    &&& 0 <= i
    &&& i + p.len() <= s.len()
    &&& s.subrange(i, i + p.len()) == p
}

/// `p` occurs somewhere in `s` (the empty pattern occurs in every string).
pub open spec fn contains(s: Seq<char>, p: Seq<char>) -> bool {
    exists|i: int| occurs_at(s, p, i)
}

/// The pieces of `s` between the leftmost non-overlapping occurrences of the
/// non-empty pattern `p`, scanning from index `i` with the current piece
/// starting at `start`.
pub open spec fn split_scan(s: Seq<char>, p: Seq<char>, start: int, i: int) -> Seq<Seq<char>>
    decreases s.len() - i,
{
    if p.len() == 0 || i < 0 || i + p.len() > s.len() {
        seq![s.subrange(start, s.len() as int)]
    } else if occurs_at(s, p, i) {
        seq![s.subrange(start, i)] + split_scan(s, p, i + p.len(), i + p.len())
    } else {
        split_scan(s, p, start, i + 1)
    }
}

/// What std's `str::split` yields for a string pattern `p`: the pieces
/// between the leftmost non-overlapping occurrences of `p`; for the empty
/// pattern, an empty piece, each character on its own, and an empty piece.
pub open spec fn split(s: Seq<char>, p: Seq<char>) -> Seq<Seq<char>> {
    if p.len() == 0 {
        seq![Seq::<char>::empty()] + Seq::new(s.len(), |k: int| seq![s[k]]) + seq![
            Seq::<char>::empty(),
        ]
    } else {
        split_scan(s, p, 0, 0)
    }
}

/// The parts concatenated with `sep` between each two of them.
pub open spec fn join(parts: Seq<Seq<char>>, sep: Seq<char>) -> Seq<char>
    decreases parts.len(),
{
    if parts.len() == 0 {
        Seq::empty()
    } else if parts.len() == 1 {
        parts[0]
    } else {
        parts[0] + sep + join(parts.subrange(1, parts.len() as int), sep)
    }
}

/// `s` with every leftmost non-overlapping occurrence of `from` replaced by
/// `to` (for an empty `from`, `to` goes before each character and at the end).
pub open spec fn replace(s: Seq<char>, from: Seq<char>, to: Seq<char>) -> Seq<char> {
    join(split(s, from), to)
}

/// `s` begins with `p`.
pub open spec fn starts_with(s: Seq<char>, p: Seq<char>) -> bool {
    p.len() <= s.len() && s.subrange(0, p.len() as int) == p
}

/// `s` ends with `p`.
pub open spec fn ends_with(s: Seq<char>, p: Seq<char>) -> bool {
    p.len() <= s.len() && s.subrange(s.len() - p.len(), s.len() as int) == p
}

/// What std's `str::to_uppercase` returns for a string (Unicode case mapping).
pub uninterp spec fn to_uppercase(s: Seq<char>) -> Seq<char>;

/// What std's `str::to_lowercase` returns for a string (Unicode case mapping).
pub uninterp spec fn to_lowercase(s: Seq<char>) -> Seq<char>;

/// `c` is an ASCII character.
pub open spec fn is_ascii_char(c: char) -> bool {
    (c as u32) < 128
}

/// Every character of `s` is an ASCII character.
pub open spec fn is_ascii_text(s: Seq<char>) -> bool {
    forall|k: int| 0 <= k < s.len() ==> is_ascii_char(#[trigger] s[k])
}

/// The ASCII upper case of `c`: `a` to `z` become `A` to `Z`, every other
/// character stays.
pub open spec fn ascii_upper(c: char) -> char {
    if 'a' <= c && c <= 'z' {
        ((c as u32) - 32) as char
    } else {
        c
    }
}

/// The ASCII lower case of `c`: `A` to `Z` become `a` to `z`, every other
/// character stays.
pub open spec fn ascii_lower(c: char) -> char {
    if 'A' <= c && c <= 'Z' {
        ((c as u32) + 32) as char
    } else {
        c
    }
}

/// The upper case of one character: its ASCII upper case for an ASCII
/// character, else std's upper case of the one-character string.
pub open spec fn char_upper(c: char) -> Seq<char> {
    if is_ascii_char(c) {
        seq![ascii_upper(c)]
    } else {
        to_uppercase(seq![c])
    }
}

/// The upper cases of the characters of `s`, one after the other.
pub open spec fn upper_each(s: Seq<char>) -> Seq<char>
    decreases s.len(),
{
    if s.len() == 0 {
        Seq::empty()
    } else {
        char_upper(s[0]) + upper_each(s.drop_first())
    }
}

/// std's `str::to_uppercase`. Its result is named `to_uppercase` of the
/// argument. It is also claimed to map the string one character at a time
/// (no character's upper case depends on its neighbours, as std documents
/// for lower case's final sigma only), an ASCII character by its ASCII upper
/// case; what a non-ASCII character maps to is left to the name.
#[verifier::external_body]
fn std_to_uppercase(s: &str) -> (r: String)
    ensures
        r@ == to_uppercase(s@),
        r@ == upper_each(s@),
{
    s.to_uppercase()
}

/// std's `str::to_lowercase`. Its result is named `to_lowercase` of the
/// argument; of an ASCII string it is also claimed to be the ASCII lower
/// case, character by character. Of other strings nothing more is claimed:
/// a final sigma's lower case depends on the characters around it.
#[verifier::external_body]
fn std_to_lowercase(s: &str) -> (r: String)
    ensures
        r@ == to_lowercase(s@),
        is_ascii_text(s@) ==> r@ == Seq::new(s@.len(), |k: int| ascii_lower(s@[k])),
{
    s.to_lowercase()
}

/// `str_upper`: the string in upper case, character by character.
pub fn str_upper(s: &str) -> (r: String)
    ensures
        r@ == to_uppercase(s@),
        r@ == upper_each(s@),
{
    std_to_uppercase(s)
}

/// `str_lower`: the string in lower case; an ASCII string in ASCII lower case.
pub fn str_lower(s: &str) -> (r: String)
    ensures
        r@ == to_lowercase(s@),
        is_ascii_text(s@) ==> r@ == Seq::new(s@.len(), |k: int| ascii_lower(s@[k])),
{
    std_to_lowercase(s)
}

/// `str_trim`: the string without leading and trailing white space.
pub fn str_trim(s: &str) -> (r: String)
    ensures
        r@ == trimmed(s@),
{
    let v = chars_of(s);
    let t = trimmed_chars(&v);
    string_of(&t)
}

/// Whether `p` occurs in `s` at index `i`.
fn occurs_at_exec(s: &Vec<char>, p: &Vec<char>, i: usize) -> (r: bool)
    ensures
        r == occurs_at(s@, p@, i as int),
{
    if i > s.len() || s.len() - i < p.len() {
        return false;
    }
    let n = p.len();
    let mut k: usize = 0;
    while k < n
        invariant
            n == p@.len(),
            i + n <= s.len(),
            k <= n,
            forall|m: int| 0 <= m < k ==> s@[i + m] == p@[m],
        decreases n - k,
    {
        let j: usize = i + k;
        if s[j] != p[k] {
            assert(s@.subrange(i as int, i + n)[k as int] != p@[k as int]);
            return false;
        }
        k = k + 1;
    }
    assert(s@.subrange(i as int, i + n) == p@);
    true
}

/// `str_contains`: whether `needle` occurs in `haystack`.
pub fn str_contains(haystack: &str, needle: &str) -> (r: bool)
    ensures
        r == contains(haystack@, needle@),
{
    let s = chars_of(haystack);
    let p = chars_of(needle);
    if p.len() > s.len() {
        assert forall|i: int| !occurs_at(s@, p@, i) by {}
        return false;
    }
    if p.len() == 0 {
        assert(haystack@.subrange(0, 0) =~= needle@);
        assert(occurs_at(haystack@, needle@, 0));
        return true;
    }
    let count = s.len() - p.len() + 1;
    for i in 0..count
        invariant
            count + p@.len() == s@.len() + 1,
            s@ == haystack@,
            p@ == needle@,
            forall|j: int| 0 <= j < i ==> !occurs_at(s@, p@, j),
    {
        if occurs_at_exec(&s, &p, i) {
            assert(occurs_at(haystack@, needle@, i as int));
            return true;
        }
    }
    assert forall|j: int| !occurs_at(s@, p@, j) by {
        if 0 <= j && j + p@.len() <= s@.len() {
            assert(j < count);
        }
    }
    false
}

/// `str_starts_with`: whether `s` begins with `prefix`.
pub fn str_starts_with(s: &str, prefix: &str) -> (r: bool)
    ensures
        r == starts_with(s@, prefix@),
{
    let v = chars_of(s);
    let p = chars_of(prefix);
    let r = occurs_at_exec(&v, &p, 0);
    r
}

/// `str_ends_with`: whether `s` ends with `suffix`.
pub fn str_ends_with(s: &str, suffix: &str) -> (r: bool)
    ensures
        r == ends_with(s@, suffix@),
{
    let v = chars_of(s);
    let p = chars_of(suffix);
    if p.len() > v.len() {
        return false;
    }
    occurs_at_exec(&v, &p, v.len() - p.len())
}


/// The views of a list of strings after one more string is pushed.
proof fn lemma_views_push(v: Seq<String>, x: String)
    ensures
        views(v.push(x)) == views(v).push(x@),
{
    assert(views(v.push(x)) =~= views(v).push(x@));
}

/// `str_split`: the pieces of `s` between the occurrences of `delim`, as
/// std's `str::split` yields them.
pub fn str_split(s: &str, delim: &str) -> (r: Vec<String>)
    ensures
        views(r@) == split(s@, delim@),
{
    let v = chars_of(s);
    let p = chars_of(delim);
    let n = v.len();
    let pl = p.len();
    let mut out: Vec<String> = Vec::new();
    if pl == 0 {
        out.push(String::new());
        for k in 0..n
            invariant
                n == v@.len(),
                v@ == s@,
                views(out@) == seq![Seq::<char>::empty()] + Seq::new(k as nat, |j: int| seq![s@[j]]),
        {
            let piece = string_of_range(&v, k, k + 1);
            assert(v@.subrange(k as int, k + 1) =~= seq![v@[k as int]]);
            proof {
                lemma_views_push(out@, piece);
            }
            out.push(piece);
            assert(views(out@) =~= seq![Seq::<char>::empty()] + Seq::new((k + 1) as nat, |j: int| seq![s@[j]]));
        }
        let last = String::new();
        proof {
            lemma_views_push(out@, last);
        }
        out.push(last);
        assert(views(out@) =~= split(s@, delim@));
        return out;
    }
    let mut start: usize = 0;
    let mut i: usize = 0;
    while i <= n && n - i >= pl
        invariant
            n == v@.len(),
            pl == p@.len(),
            pl > 0,
            v@ == s@,
            p@ == delim@,
            start <= i <= n,
            split(s@, delim@) == views(out@) + split_scan(v@, p@, start as int, i as int),
        decreases n - i,
    {
        if occurs_at_exec(&v, &p, i) {
            let piece = string_of_range(&v, start, i);
            proof {
                lemma_views_push(out@, piece);
            }
            out.push(piece);
            i = i + pl;
            start = i;
        } else {
            i = i + 1;
        }
    }
    let piece = string_of_range(&v, start, n);
    proof {
        lemma_views_push(out@, piece);
    }
    out.push(piece);
    out
}

/// Joining one more part appends the separator and that part.
pub proof fn lemma_join_push(parts: Seq<Seq<char>>, sep: Seq<char>, x: Seq<char>)
    requires
        parts.len() >= 1,
    ensures
        join(parts.push(x), sep) == join(parts, sep) + sep + x,
    decreases parts.len(),
{
    if parts.len() == 1 {
        assert(parts.push(x).subrange(1, 2) =~= seq![x]);
        assert(join(seq![x], sep) == x);
        assert(join(parts, sep) == parts[0]);
        assert(join(parts.push(x), sep) == parts[0] + sep + join(seq![x], sep));
    } else {
        let tail = parts.subrange(1, parts.len() as int);
        assert(parts.push(x).subrange(1, parts.len() + 1int) =~= tail.push(x));
        lemma_join_push(tail, sep, x);
        assert(join(parts.push(x), sep) =~= join(parts, sep) + sep + x);
    }
}

/// `str_join`: the strings joined with `delim` between each two of them.
pub fn str_join(items: &Vec<String>, delim: &str) -> (r: String)
    ensures
        r@ == join(views(items@), delim@),
{
    let n = items.len();
    let mut out = String::new();
    for i in 0..n
        invariant
            n == items@.len(),
            out@ == join(views(items@).take(i as int), delim@),
    {
        let ghost before = views(items@).take(i as int);
        assert(views(items@).take(i + 1) =~= before.push(items@[i as int]@));
        if i > 0 {
            proof {
                lemma_join_push(before, delim@, items@[i as int]@);
            }
            append_str(&mut out, delim);
        } else {
            assert(before.push(items@[i as int]@).subrange(1, 1) =~= Seq::<Seq<char>>::empty());
        }
        append_str(&mut out, items[i].as_str());
    }
    assert(views(items@).take(n as int) =~= views(items@));
    out
}

/// `str_replace`: `s` with every occurrence of `from` replaced by `to`.
pub fn str_replace(s: &str, from: &str, to: &str) -> (r: String)
    ensures
        r@ == replace(s@, from@, to@),
{
    let pieces = str_split(s, from);
    str_join(&pieces, to)
}

/// The message of `str_char_at` for an index past the end of a string of
/// `byte_len` bytes.
pub open spec fn char_at_error(index: nat, byte_len: nat) -> Seq<char> {
    "str_char_at(): index "@ + decimal(index) + " out of bounds for string of length "@ + decimal(
        byte_len,
    )
}

/// `str_char_at`: the character at character index `index`, or an error
/// when `s` has no such character; the error gives the length of `s` in
/// UTF-8 bytes.
pub fn str_char_at(s: &str, index: usize) -> (r: Result<String, String>)
    ensures
        r is Ok <==> index < s@.len(),
        r matches Ok(c) ==> c@ == seq![s@[index as int]],
        r matches Err(m) ==> m@ == char_at_error(index as nat, s.len() as nat),
{
    let v = chars_of(s);
    if index < v.len() {
        Ok(string_of_range(&v, index, index + 1))
    } else {
        let mut m = "str_char_at(): index ".to_owned();
        append_str(&mut m, decimal_string(index).as_str());
        append_str(&mut m, " out of bounds for string of length ");
        append_str(&mut m, decimal_string(s.len()).as_str());
        Err(m)
    }
}

/// The message of `str_substring` for a range that does not fit a string of
/// `len` characters.
pub open spec fn substring_error(start: nat, end: nat, len: nat) -> Seq<char> {
    "str_substring(): invalid range "@ + decimal(start) + ".."@ + decimal(end)
        + " for string of length "@ + decimal(len)
}

/// `str_substring`: the characters of `s` from index `start` up to (not
/// including) index `end`, or an error when the range does not fit.
pub fn str_substring(s: &str, start: usize, end: usize) -> (r: Result<String, String>)
    ensures
        r is Ok <==> start <= end <= s@.len(),
        r matches Ok(t) ==> t@ == s@.subrange(start as int, end as int),
        r matches Err(m) ==> m@ == substring_error(start as nat, end as nat, s@.len()),
{
    let v = chars_of(s);
    if start > v.len() || end > v.len() || start > end {
        let mut m = "str_substring(): invalid range ".to_owned();
        append_str(&mut m, decimal_string(start).as_str());
        append_str(&mut m, "..");
        append_str(&mut m, decimal_string(end).as_str());
        append_str(&mut m, " for string of length ");
        append_str(&mut m, decimal_string(v.len()).as_str());
        Err(m)
    } else {
        Ok(string_of_range(&v, start, end))
    }
}

/// `str_reverse`: the characters of `s` in reverse order.
pub fn str_reverse(s: &str) -> (r: String)
    ensures
        r@ == s@.reverse(),
{
    let v = chars_of(s);
    let n = v.len();
    let mut out: Vec<char> = Vec::new();
    for i in 0..n
        invariant
            n == v@.len(),
            out@ == v@.reverse().take(i as int),
    {
        out.push(v[n - 1 - i]);
        assert(v@.reverse().take(i + 1) =~= v@.reverse().take(i as int).push(v@[n - 1 - i]));
    }
    assert(v@.reverse().take(n as int) =~= v@.reverse());
    string_of(&out)
}


/// `split_scan` always yields at least one piece.
proof fn lemma_split_scan_nonempty(s: Seq<char>, p: Seq<char>, start: int, i: int)
    ensures
        split_scan(s, p, start, i).len() >= 1,
    decreases s.len() - i,
{
    if p.len() == 0 || i < 0 || i + p.len() > s.len() {
    } else if occurs_at(s, p, i) {
        lemma_split_scan_nonempty(s, p, i + p.len(), i + p.len());
    } else {
        lemma_split_scan_nonempty(s, p, start, i + 1);
    }
}

/// Joining a first part with the remaining ones puts the separator between.
proof fn lemma_join_cons(x: Seq<char>, rest: Seq<Seq<char>>, sep: Seq<char>)
    requires
        rest.len() >= 1,
    ensures
        join(seq![x] + rest, sep) == x + sep + join(rest, sep),
{
    assert((seq![x] + rest).subrange(1, rest.len() + 1int) =~= rest);
}

/// Joining the pieces that `split_scan` yields, with the pattern as the
/// separator, gives back the scanned part of the string.
proof fn lemma_join_split_scan(s: Seq<char>, p: Seq<char>, start: int, i: int)
    requires
        p.len() > 0,
        0 <= start <= i <= s.len(),
    ensures
        join(split_scan(s, p, start, i), p) == s.subrange(start, s.len() as int),
    decreases s.len() - i,
{
    if i + p.len() > s.len() {
    } else if occurs_at(s, p, i) {
        let rest = split_scan(s, p, i + p.len(), i + p.len());
        lemma_split_scan_nonempty(s, p, i + p.len(), i + p.len());
        lemma_join_split_scan(s, p, i + p.len(), i + p.len());
        lemma_join_cons(s.subrange(start, i), rest, p);
        assert(s.subrange(start, i) + p + s.subrange(i + p.len(), s.len() as int) =~= s.subrange(
            start,
            s.len() as int,
        ));
    } else {
        lemma_join_split_scan(s, p, start, i + 1);
    }
}

/// The characters of `t`, each as a one-character string.
spec fn singles(t: Seq<char>) -> Seq<Seq<char>> {
    Seq::new(t.len(), |k: int| seq![t[k]])
}

/// Joining the characters of `t` one by one, then an empty piece, with no
/// separator, gives back `t`.
proof fn lemma_join_singles(t: Seq<char>)
    ensures
        join(singles(t) + seq![Seq::<char>::empty()], Seq::<char>::empty()) == t,
    decreases t.len(),
{
    let e = Seq::<char>::empty();
    if t.len() == 0 {
        assert(singles(t) + seq![e] =~= seq![e]);
    } else {
        let rest = singles(t.drop_first()) + seq![e];
        lemma_join_singles(t.drop_first());
        assert(singles(t) + seq![e] =~= seq![seq![t[0]]] + rest);
        lemma_join_cons(seq![t[0]], rest, e);
        assert(seq![t[0]] + e + t.drop_first() =~= t);
    }
}

/// Splitting a string at a delimiter and joining the pieces with the same
/// delimiter gives back the string, for every delimiter, the empty one too.
pub proof fn law_join_split(s: Seq<char>, delim: Seq<char>)
    ensures
        join(split(s, delim), delim) == s,
{
    if delim.len() == 0 {
        let e = Seq::<char>::empty();
        let rest = singles(s) + seq![e];
        assert(split(s, delim) =~= seq![e] + rest);
        lemma_join_cons(e, rest, delim);
        lemma_join_singles(s);
        assert(e + delim + s =~= s);
    } else {
        lemma_join_split_scan(s, delim, 0, 0);
        assert(s.subrange(0, s.len() as int) =~= s);
    }
}

/// Replacing a pattern by itself leaves every string unchanged.
pub proof fn law_replace_same(s: Seq<char>, pat: Seq<char>)
    ensures
        replace(s, pat, pat) == s,
{
    law_join_split(s, pat);
}

/// With no occurrence of `p` from index `i` on, the scan yields the rest of
/// the string as one piece.
proof fn lemma_split_scan_absent(s: Seq<char>, p: Seq<char>, start: int, i: int)
    requires
        p.len() > 0,
        0 <= i,
        forall|j: int| i <= j ==> !occurs_at(s, p, j),
    ensures
        split_scan(s, p, start, i) == seq![s.subrange(start, s.len() as int)],
    decreases s.len() - i,
{
    if i + p.len() > s.len() {
    } else {
        assert(!occurs_at(s, p, i));
        lemma_split_scan_absent(s, p, start, i + 1);
    }
}

/// Replacing a non-empty pattern that does not occur in a string leaves the
/// string unchanged, whatever it is replaced by.
pub proof fn law_replace_absent(s: Seq<char>, from: Seq<char>, to: Seq<char>)
    requires
        from.len() > 0,
        !contains(s, from),
    ensures
        replace(s, from, to) == s,
{
    lemma_split_scan_absent(s, from, 0, 0);
    assert(s.subrange(0, s.len() as int) =~= s);
}

/// Scanning past indices where the pattern does not occur does not change
/// the pieces.
proof fn lemma_split_scan_skip(s: Seq<char>, p: Seq<char>, start: int, i: int, m: int)
    requires
        p.len() > 0,
        0 <= i <= m,
        m + p.len() <= s.len(),
        forall|j: int| i <= j < m ==> !occurs_at(s, p, j),
    ensures
        split_scan(s, p, start, i) == split_scan(s, p, start, m),
    decreases m - i,
{
    if i < m {
        assert(!occurs_at(s, p, i));
        lemma_split_scan_skip(s, p, start, i + 1, m);
    }
}

/// Scanning a string behind a prefix yields the pieces of the string alone.
proof fn lemma_split_scan_shift(pre: Seq<char>, b: Seq<char>, p: Seq<char>, start: int, i: int)
    requires
        p.len() > 0,
        0 <= start <= i <= b.len(),
    ensures
        split_scan(pre + b, p, pre.len() + start, pre.len() + i) == split_scan(b, p, start, i),
    decreases b.len() - i,
{
    let s = pre + b;
    let n = pre.len() as int;
    assert(s.subrange(n + start, s.len() as int) =~= b.subrange(start, b.len() as int));
    if i + p.len() > b.len() {
    } else {
        assert(s.subrange(n + i, n + i + p.len()) =~= b.subrange(i, i + p.len()));
        if occurs_at(b, p, i) {
            assert(occurs_at(s, p, n + i));
            assert(s.subrange(n + start, n + i) =~= b.subrange(start, i));
            lemma_split_scan_shift(pre, b, p, i + p.len(), i + p.len());
        } else {
            assert(!occurs_at(s, p, n + i));
            lemma_split_scan_shift(pre, b, p, start, i + 1);
        }
    }
}

/// Every occurrence of a non-empty pattern is replaced, however many there
/// are: where the first occurrence in a string ends the part `a`, the result
/// is `a`, the replacement, and the rest of the string with its own
/// occurrences replaced.
pub proof fn law_replace_first_occurrence(a: Seq<char>, b: Seq<char>, from: Seq<char>, to: Seq<char>)
    requires
        from.len() > 0,
        forall|j: int| 0 <= j < a.len() ==> !occurs_at(a + from + b, from, j),
    ensures
        replace(a + from + b, from, to) == a + to + replace(b, from, to),
{
    let s = a + from + b;
    let n = a.len() as int;
    let k = n + from.len();
    lemma_split_scan_skip(s, from, 0, 0, n);
    assert(s.subrange(n, k) =~= from);
    assert(occurs_at(s, from, n));
    assert(s.subrange(0, n) =~= a);
    assert(s =~= (a + from) + b);
    lemma_split_scan_shift(a + from, b, from, 0, 0);
    lemma_split_scan_nonempty(b, from, 0, 0);
    lemma_join_cons(a, split_scan(b, from, 0, 0), to);
}

/// Replacing the empty pattern puts the replacement before each character
/// and at the end.
pub proof fn law_replace_empty_pattern(c: char, t: Seq<char>, to: Seq<char>)
    ensures
        replace(Seq::<char>::empty(), Seq::<char>::empty(), to) == to,
        replace(seq![c] + t, Seq::<char>::empty(), to) == to + seq![c] + replace(t, Seq::<char>::empty(), to),
{
    let e = Seq::<char>::empty();
    assert(split(e, e) =~= seq![e, e]);
    assert(seq![e, e] =~= seq![e] + seq![e]);
    lemma_join_cons(e, seq![e], to);
    assert(join(seq![e], to) == e);
    assert(e + to + e =~= to);
    let s = seq![c] + t;
    let rest = singles(t) + seq![e];
    assert(split(t, e) =~= seq![e] + rest);
    assert(split(s, e) =~= seq![e] + (seq![seq![c]] + rest));
    lemma_join_cons(e, seq![seq![c]] + rest, to);
    lemma_join_cons(seq![c], rest, to);
    lemma_join_cons(e, rest, to);
    assert(e + to + (seq![c] + to + join(rest, to)) =~= to + seq![c] + (e + to + join(rest, to)));
}

/// Upper case goes one character at a time: that of a concatenation is the
/// concatenation of the upper cases, that of an ASCII text is each
/// character's ASCII upper case (letters `a` to `z` become `A` to `Z`, and
/// the others, such as a space, a digit or a mark, stay as they are).
pub proof fn law_upper(a: Seq<char>, b: Seq<char>)
    ensures
        upper_each(a + b) == upper_each(a) + upper_each(b),
        is_ascii_text(a) ==> upper_each(a) == Seq::new(a.len(), |k: int| ascii_upper(a[k])),
        forall|c: char| is_ascii_char(c) && !('a' <= c && c <= 'z') ==> #[trigger] upper_each(seq![c]) == seq![c],
    decreases a.len(),
{
    if a.len() == 0 {
        assert(a + b =~= b);
        assert(upper_each(a) + upper_each(b) =~= upper_each(b));
        assert(Seq::new(a.len(), |k: int| ascii_upper(a[k])) =~= Seq::<char>::empty());
    } else {
        let t = a.drop_first();
        law_upper(t, b);
        assert((a + b).drop_first() =~= t + b);
        assert(upper_each(a + b) =~= upper_each(a) + upper_each(b));
        if is_ascii_text(a) {
            assert(is_ascii_text(t)) by {
                assert forall|k: int| 0 <= k < t.len() implies is_ascii_char(#[trigger] t[k]) by {
                    assert(t[k] == a[k + 1]);
                }
            }
            assert(is_ascii_char(a[0]));
            assert(upper_each(a) =~= Seq::new(a.len(), |k: int| ascii_upper(a[k])));
        }
    }
    assert forall|c: char| is_ascii_char(c) && !('a' <= c && c <= 'z') implies #[trigger] upper_each(seq![c])
        == seq![c] by {
        let e = Seq::<char>::empty();
        assert(seq![c].drop_first() =~= e);
        assert(upper_each(e) == e);
        assert(seq![c][0] == c);
        assert(char_upper(c) == seq![c]);
        assert(upper_each(seq![c]) == char_upper(c) + upper_each(e));
        assert(upper_each(seq![c]) =~= seq![c]);
    }
}

/// A string that begins or ends with a pattern contains it.
pub proof fn law_affix_contained(s: Seq<char>, p: Seq<char>)
    ensures
        starts_with(s, p) ==> contains(s, p),
        ends_with(s, p) ==> contains(s, p),
{
    if starts_with(s, p) {
        assert(occurs_at(s, p, 0));
    }
    if ends_with(s, p) {
        assert(occurs_at(s, p, s.len() - p.len()));
    }
}

/// With no occurrence of `p` in `s` from `start` up to `i`, no piece that the
/// scan yields contains `p`.
proof fn lemma_split_scan_pieces(s: Seq<char>, p: Seq<char>, start: int, i: int)
    requires
        p.len() > 0,
        0 <= start <= i <= s.len(),
        forall|j: int| start <= j < i ==> !occurs_at(s, p, j),
    ensures
        forall|k: int|
            0 <= k < split_scan(s, p, start, i).len() ==> !contains(
                #[trigger] split_scan(s, p, start, i)[k],
                p,
            ),
    decreases s.len() - i,
{
    let r = split_scan(s, p, start, i);
    if i + p.len() > s.len() {
        let piece = s.subrange(start, s.len() as int);
        assert forall|q: int| !occurs_at(piece, p, q) by {
            if occurs_at(piece, p, q) {
                assert(piece.subrange(q, q + p.len()) =~= s.subrange(start + q, start + q + p.len()));
                assert(occurs_at(s, p, start + q));
                assert(start + q < i);
            }
        }
        assert(!contains(piece, p));
        assert(r == seq![piece]);
        assert(r[0] == piece);
    } else if occurs_at(s, p, i) {
        let piece = s.subrange(start, i);
        let rest = split_scan(s, p, i + p.len(), i + p.len());
        lemma_split_scan_pieces(s, p, i + p.len(), i + p.len());
        assert forall|q: int| !occurs_at(piece, p, q) by {
            if occurs_at(piece, p, q) {
                assert(piece.subrange(q, q + p.len()) =~= s.subrange(start + q, start + q + p.len()));
                assert(occurs_at(s, p, start + q));
                assert(start + q < i);
            }
        }
        assert(!contains(piece, p));
        assert(r == seq![piece] + rest);
        assert forall|k: int| 0 <= k < r.len() implies !contains(#[trigger] r[k], p) by {
            if k > 0 {
                assert(r[k] == rest[k - 1]);
            } else {
                assert(r[0] == piece);
            }
        }
    } else {
        lemma_split_scan_pieces(s, p, start, i + 1);
        assert(r == split_scan(s, p, start, i + 1));
    }
}

/// No piece of a split at a non-empty delimiter contains the delimiter.
pub proof fn law_split_pieces_free_of_delimiter(s: Seq<char>, delim: Seq<char>)
    requires
        delim.len() > 0,
    ensures
        forall|k: int| 0 <= k < split(s, delim).len() ==> !contains(#[trigger] split(s, delim)[k], delim),
{
    lemma_split_scan_pieces(s, delim, 0, 0);
}

/// Reversing a string twice gives it back.
pub proof fn law_reverse_twice(s: Seq<char>)
    ensures
        s.reverse().reverse() == s,
{
    assert(s.reverse().reverse() =~= s);
}

/// Trimming removes all leading and trailing white space, and trimming twice
/// is the same as trimming once.
pub proof fn law_trim(s: Seq<char>)
    ensures
        trimmed(s).len() > 0 ==> !is_white_space(trimmed(s)[0]) && !is_white_space(
            trimmed(s).last(),
        ),
        trimmed(trimmed(s)) == trimmed(s),
{
    let t = trimmed(s);
    let a = skip_ws(s, 0);
    let b = back_ws(s, s.len() as int);
    lemma_skip_ws(s, 0);
    lemma_back_ws(s, s.len() as int);
    if a < b {
        assert(t[0] == s[a]);
        assert(t.last() == s[b - 1]);
        assert(skip_ws(t, 0) == 0);
        assert(back_ws(t, t.len() as int) == t.len());
        assert(t.subrange(0, t.len() as int) =~= t);
    } else {
        assert(trimmed(t) =~= t);
    }
}

/// The one-character string at an index is the one-character substring
/// there, and the full range is the whole string.
pub proof fn law_char_at_substring(s: Seq<char>, i: int)
    requires
        0 <= i < s.len(),
    ensures
        seq![s[i]] == s.subrange(i, i + 1),
        s.subrange(0, s.len() as int) == s,
{
    assert(seq![s[i]] =~= s.subrange(i, i + 1));
    assert(s.subrange(0, s.len() as int) =~= s);
}

} // verus!
