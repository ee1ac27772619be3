//! Conversions between strings and character vectors, decimal rendering,
//! and white space.

use vstd::prelude::*;

verus! {

broadcast use vstd::string::group_string_axioms;

/// The characters of `s`, in order.
pub fn chars_of(s: &str) -> (v: Vec<char>)
    ensures
        v@ == s@,
{
    let mut v: Vec<char> = Vec::new();
    for c in it: s.chars()
        invariant
            v@ == it.seq().take(it.index()),
    {
        v.push(c);
    }
    v
}

/// Appends `c` to `s` (std's `String::push`, which appends the given char to
/// the end of the string).
#[verifier::external_body]
pub(crate) fn push_char(s: &mut String, c: char)
    ensures
        final(s)@ == old(s)@.push(c),
{
    s.push(c);
}

/// The string whose characters are `v`, in order.
pub fn string_of(v: &Vec<char>) -> (s: String)
    ensures
        s@ == v@,
{
    let mut s = String::new();
    let n = v.len();
    for i in 0..n
        invariant
            n == v@.len(),
            s@ == v@.take(i as int),
    {
        push_char(&mut s, v[i]);
        assert(v@.take(i + 1) == v@.take(i as int).push(v@[i as int]));
    }
    assert(v@.take(n as int) == v@);
    s
}

/// The decimal digit character for `d`, which is below ten.
pub open spec fn digit_char(d: nat) -> char {
    ((48 + d) as u8) as char
}

/// The decimal rendering of `n`, as `usize`'s `Display` prints it:
/// no sign, no leading zeros, and "0" for zero.
pub open spec fn decimal(n: nat) -> Seq<char>
    decreases n,
{
    if n < 10 {
        seq![digit_char(n)]
    } else {
        decimal(n / 10).push(digit_char(n % 10))
    }
}

/// Renders `n` in decimal.
pub fn decimal_string(n: usize) -> (s: String)
    ensures
        s@ == decimal(n as nat),
{
    // digits, least significant first
    let mut rev: Vec<char> = Vec::new();
    let mut m: usize = n;
    while m >= 10
        invariant
            decimal(n as nat) == decimal(m as nat) + rev@.reverse(),
        decreases m,
    {
        let d: u8 = (m % 10) as u8;
        let c: char = (48u8 + d) as char;
        let ghost old_rev = rev@;
        rev.push(c);
        assert(rev@.reverse() == seq![c] + old_rev.reverse());
        assert(decimal(m as nat) == decimal((m / 10) as nat).push(c));
        m = m / 10;
    }
    let d: u8 = m as u8;
    let c: char = (48u8 + d) as char;
    let ghost old_rev = rev@;
    rev.push(c);
    assert(rev@.reverse() == seq![c] + old_rev.reverse());
    let mut out: Vec<char> = Vec::new();
    let len = rev.len();
    for i in 0..len
        invariant
            len == rev@.len(),
            out@ == rev@.reverse().take(i as int),
    {
        out.push(rev[len - 1 - i]);
        assert(rev@.reverse().take(i + 1) == rev@.reverse().take(i as int).push(rev@[len - 1 - i]));
    }
    assert(rev@.reverse().take(len as int) == rev@.reverse());
    string_of(&out)
}


/// The string made of the characters of `v` from index `a` up to (not
/// including) index `b`.
pub fn string_of_range(v: &Vec<char>, a: usize, b: usize) -> (s: String)
    requires
        a <= b <= v@.len(),
    ensures
        s@ == v@.subrange(a as int, b as int),
{
    let mut s = String::new();
    for i in a..b
        invariant
            a <= b <= v@.len(),
            s@ == v@.subrange(a as int, i as int),
    {
        push_char(&mut s, v[i]);
        assert(v@.subrange(a as int, i + 1) == v@.subrange(a as int, i as int).push(v@[i as int]));
    }
    s
}

/// Appends the characters of `t` to `s`.
pub fn append_str(s: &mut String, t: &str)
    ensures
        final(s)@ == old(s)@ + t@,
{
    let v = chars_of(t);
    let n = v.len();
    let ghost s0 = s@;
    for i in 0..n
        invariant
            n == v@.len(),
            v@ == t@,
            s@ == s0 + v@.take(i as int),
    {
        push_char(s, v[i]);
        assert(v@.take(i + 1) == v@.take(i as int).push(v@[i as int]));
    }
    assert(v@.take(n as int) == v@);
}

/// Whether `c` has the Unicode `White_Space` property: the characters
/// U+0009 to U+000D, U+0020, U+0085, U+00A0, U+1680, U+2000 to U+200A,
/// U+2028, U+2029, U+202F, U+205F and U+3000.
pub open spec fn is_white_space(c: char) -> bool {
    let u = c as u32;
    ||| 0x9 <= u <= 0xD
    ||| u == 0x20
    ||| u == 0x85
    ||| u == 0xA0
    ||| u == 0x1680
    ||| 0x2000 <= u <= 0x200A
    ||| u == 0x2028
    ||| u == 0x2029
    ||| u == 0x202F
    ||| u == 0x205F
    ||| u == 0x3000
}

/// Whether `c` has the Unicode `White_Space` property, which is what std's
/// `char::is_whitespace` (and so `str::trim`) tests.
pub fn char_is_whitespace(c: char) -> (r: bool)
    ensures
        r == is_white_space(c),
{
    let u = c as u32;
    (0x9 <= u && u <= 0xD) || u == 0x20 || u == 0x85 || u == 0xA0 || u == 0x1680 || (0x2000 <= u
        && u <= 0x200A) || u == 0x2028 || u == 0x2029 || u == 0x202F || u == 0x205F || u == 0x3000
}

/// The first index at or after `i` that does not hold white space
/// (`s.len()` when there is none).
pub open spec fn skip_ws(s: Seq<char>, i: int) -> int
    decreases s.len() - i,
{
    if 0 <= i < s.len() && is_white_space(s[i]) {
        skip_ws(s, i + 1)
    } else {
        i
    }
}

/// The end of `s.take(j)` once the white space at its end is dropped.
pub open spec fn back_ws(s: Seq<char>, j: int) -> int
    decreases j,
{
    if 0 < j <= s.len() && is_white_space(s[j - 1]) {
        back_ws(s, j - 1)
    } else {
        j
    }
}

/// `s` without its leading and trailing white space.
pub open spec fn trimmed(s: Seq<char>) -> Seq<char> {
    let a = skip_ws(s, 0);
    let b = back_ws(s, s.len() as int);
    if a < b {
        s.subrange(a, b)
    } else {
        Seq::empty()
    }
}

/// `skip_ws` stays within the sequence and skips only white space.
pub proof fn lemma_skip_ws(s: Seq<char>, i: int)
    requires
        0 <= i <= s.len(),
    ensures
        i <= skip_ws(s, i) <= s.len(),
        skip_ws(s, i) < s.len() ==> !is_white_space(s[skip_ws(s, i)]),
        forall|k: int| i <= k < skip_ws(s, i) ==> is_white_space(#[trigger] s[k]),
    decreases s.len() - i,
{
    if i < s.len() && is_white_space(s[i]) {
        lemma_skip_ws(s, i + 1);
    }
}

/// `back_ws` stays within the sequence and drops only white space.
pub proof fn lemma_back_ws(s: Seq<char>, j: int)
    requires
        0 <= j <= s.len(),
    ensures
        0 <= back_ws(s, j) <= j,
        back_ws(s, j) > 0 ==> !is_white_space(s[back_ws(s, j) - 1]),
        forall|k: int| back_ws(s, j) <= k < j ==> is_white_space(#[trigger] s[k]),
    decreases j,
{
    if j > 0 && is_white_space(s[j - 1]) {
        lemma_back_ws(s, j - 1);
    }
}

/// From index `i`, white space up to `i0` is skipped, and no more.
pub proof fn lemma_skip_ws_to(s: Seq<char>, i: int, i0: int)
    requires
        0 <= i <= i0 <= s.len(),
        forall|p: int| i <= p < i0 ==> is_white_space(#[trigger] s[p]),
        i0 == s.len() || !is_white_space(s[i0]),
    ensures
        skip_ws(s, i) == i0,
    decreases i0 - i,
{
    if i < i0 {
        lemma_skip_ws_to(s, i + 1, i0);
    }
}

/// Back from index `j`, white space down to `j0` is dropped, and no more.
pub proof fn lemma_back_ws_to(s: Seq<char>, j: int, j0: int)
    requires
        0 <= j0 <= j <= s.len(),
        forall|p: int| j0 <= p < j ==> is_white_space(#[trigger] s[p]),
        j0 == 0 || !is_white_space(s[j0 - 1]),
    ensures
        back_ws(s, j) == j0,
    decreases j - j0,
{
    if j0 < j {
        lemma_back_ws_to(s, j - 1, j0);
    }
}

/// White space around a text does not change what trimming gives.
pub proof fn law_trim_surrounding(a: Seq<char>, t: Seq<char>, b: Seq<char>)
    requires
        forall|p: int| 0 <= p < a.len() ==> is_white_space(#[trigger] a[p]),
        forall|p: int| 0 <= p < b.len() ==> is_white_space(#[trigger] b[p]),
    ensures
        trimmed(a + t + b) == trimmed(t),
{
    let u = a + t + b;
    let n = a.len() as int;
    let m = t.len() as int;
    assert forall|p: int| 0 <= p < n implies u[p] == a[p] by {}
    assert forall|p: int| 0 <= p < m implies u[n + p] == t[p] by {}
    assert forall|p: int| 0 <= p < b.len() implies u[n + m + p] == b[p] by {}
    lemma_skip_ws(t, 0);
    lemma_back_ws(t, m);
    let ta = skip_ws(t, 0);
    let tb = back_ws(t, m);
    if ta < m {
        // t holds a character that is not white space
        assert(!is_white_space(t[ta]));
        assert(tb > ta) by {
            if tb <= ta {
                assert(is_white_space(t[ta]));
            }
        }
        assert forall|p: int| 0 <= p < n + ta implies is_white_space(#[trigger] u[p]) by {
            if p < n {
                assert(u[p] == a[p]);
            } else {
                assert(u[p] == t[p - n]);
            }
        }
        lemma_skip_ws_to(u, 0, n + ta);
        assert forall|p: int| n + tb <= p < u.len() implies is_white_space(#[trigger] u[p]) by {
            if p < n + m {
                assert(u[p] == t[p - n]);
            } else {
                assert(u[p] == b[p - n - m]);
            }
        }
        assert(u[n + tb - 1] == t[tb - 1]);
        lemma_back_ws_to(u, u.len() as int, n + tb);
        assert(u.subrange(n + ta, n + tb) =~= t.subrange(ta, tb));
    } else {
        // t is all white space, and so is the whole text
        assert forall|p: int| 0 <= p < u.len() implies is_white_space(#[trigger] u[p]) by {
            if p < n {
                assert(u[p] == a[p]);
            } else if p < n + m {
                assert(u[p] == t[p - n]);
            } else {
                assert(u[p] == b[p - n - m]);
            }
        }
        lemma_skip_ws_to(u, 0, u.len() as int);
        lemma_back_ws(u, u.len() as int);
        assert(trimmed(u) =~= Seq::<char>::empty());
        assert(trimmed(t) =~= Seq::<char>::empty());
    }
}

/// The first index at or after `i` in `s` that does not hold white space.
pub fn skip_ws_exec(s: &Vec<char>, i: usize) -> (r: usize)
    requires
        i <= s@.len(),
    ensures
        r as int == skip_ws(s@, i as int),
{
    let mut k = i;
    while k < s.len() && char_is_whitespace(s[k])
        invariant
            i <= k <= s@.len(),
            skip_ws(s@, i as int) == skip_ws(s@, k as int),
        decreases s@.len() - k,
    {
        k = k + 1;
    }
    k
}

/// The characters of `s` without leading and trailing white space.
pub fn trimmed_chars(s: &Vec<char>) -> (r: Vec<char>)
    ensures
        r@ == trimmed(s@),
{
    let a = skip_ws_exec(s, 0);
    let mut b = s.len();
    while b > 0 && char_is_whitespace(s[b - 1])
        invariant
            b <= s@.len(),
            back_ws(s@, s@.len() as int) == back_ws(s@, b as int),
        decreases b,
    {
        b = b - 1;
    }
    let mut r: Vec<char> = Vec::new();
    if a < b {
        for i in a..b
            invariant
                a < b <= s@.len(),
                r@ == s@.subrange(a as int, i as int),
        {
            r.push(s[i]);
            assert(s@.subrange(a as int, i + 1) == s@.subrange(a as int, i as int).push(s@[i as int]));
        }
    }
    r
}

} // verus!
