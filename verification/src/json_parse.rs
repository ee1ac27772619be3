//! Reading a value back from JSON text.

use vstd::prelude::*;
use crate::text::{
    append_str, chars_of, lemma_skip_ws, push_char, skip_ws, skip_ws_exec, string_of, trimmed, trimmed_chars,
};
use crate::value::{
    entries_view, items_view, lemma_entries_view, lemma_entries_view_push,
    lemma_entries_view_update, lemma_list_view, model, distinct_keys, well_keyed, Entry, SpecValue,
    Value,
};

verus! {

broadcast use vstd::string::group_string_axioms;

/// A value read from the text, with the index just after it, or the message
/// of what went wrong.
pub type Parsed = Result<(SpecValue, int), Seq<char>>;

/// `c` is an ASCII decimal digit.
pub open spec fn is_digit(c: char) -> bool {
    '0' <= c && c <= '9'
}

/// The message when the text ends where a value should begin.
pub open spec fn msg_end() -> Seq<char> {
    "unexpected end of JSON"@
}

/// The first byte of the UTF-8 encoding of `c`.
pub open spec fn lead_byte(c: char) -> u8 {
    vstd::utf8::encode_scalar(c as u32)[0]
}

/// The message for a value that starts with `c`: it quotes the first byte of
/// `c`'s UTF-8 encoding taken as a character.
pub open spec fn msg_unexpected(c: char) -> Seq<char> {
    "unexpected character '"@ + seq![lead_byte(c) as char] + "' in JSON"@
}

/// The message when an object key does not begin with a double quote.
pub open spec fn msg_expected_quote() -> Seq<char> {
    "expected '\"'"@
}

/// The message when a string literal has no closing quote.
pub open spec fn msg_unterminated_string() -> Seq<char> {
    "unterminated string"@
}

/// The message when the text ends right after a backslash in a string.
pub open spec fn msg_unterminated_escape() -> Seq<char> {
    "unterminated escape"@
}

/// The message when the text taken as a number is not a number.
pub open spec fn msg_invalid_number(t: Seq<char>) -> Seq<char> {
    "invalid number: "@ + t
}

/// The message when a `t` or `f` does not begin `true` or `false`.
pub open spec fn msg_expected_bool() -> Seq<char> {
    "expected 'true' or 'false'"@
}

/// The message when an `n` does not begin `null`.
pub open spec fn msg_expected_null() -> Seq<char> {
    "expected 'null'"@
}

/// The message when an array item is followed by neither `,` nor `]`.
pub open spec fn msg_array_sep() -> Seq<char> {
    "expected ',' or ']' in array"@
}

/// The message when an object key is not followed by `:`.
pub open spec fn msg_colon() -> Seq<char> {
    "expected ':' after object key"@
}

/// The message when an object value is followed by neither `,` nor `}`.
pub open spec fn msg_object_sep() -> Seq<char> {
    "expected ',' or '}' in object"@
}

/// The character that the escape `\c` stands for: `\n` a newline, `\t` a
/// tab, and any other `\c` the character `c` itself.
pub open spec fn unescape(c: char) -> char {
    if c == 'n' {
        '\n'
    } else if c == 't' {
        '\t'
    } else {
        c
    }
}

/// The rest of a string literal from index `k`, with `acc` read so far: the
/// characters up to the closing quote, escapes resolved, and the index after
/// that quote.
pub open spec fn string_body(s: Seq<char>, k: int, acc: Seq<char>) -> Result<
    (Seq<char>, int),
    Seq<char>,
>
    decreases s.len() - k,
{
    if k < 0 || k >= s.len() {
        Err(msg_unterminated_string())
    } else if s[k] == '"' {
        Ok((acc, k + 1))
    } else if s[k] == '\\' {
        if k + 1 >= s.len() {
            Err(msg_unterminated_escape())
        } else {
            string_body(s, k + 2, acc.push(unescape(s[k + 1])))
        }
    } else {
        string_body(s, k + 1, acc.push(s[k]))
    }
}

/// A string literal starting at index `j`.
pub open spec fn string_lit(s: Seq<char>, j: int) -> Result<(Seq<char>, int), Seq<char>> {
    if 0 <= j < s.len() && s[j] == '"' {
        string_body(s, j + 1, Seq::empty())
    } else {
        Err(msg_expected_quote())
    }
}

/// The end of the run of digits and dots from index `k`.
pub open spec fn scan_mantissa(s: Seq<char>, k: int) -> int
    decreases s.len() - k,
{
    if 0 <= k < s.len() && (is_digit(s[k]) || s[k] == '.') {
        scan_mantissa(s, k + 1)
    } else {
        k
    }
}

/// The end of the run of digits from index `k`.
pub open spec fn scan_digits(s: Seq<char>, k: int) -> int
    decreases s.len() - k,
{
    if 0 <= k < s.len() && is_digit(s[k]) {
        scan_digits(s, k + 1)
    } else {
        k
    }
}

/// The end of the text taken as a number from index `j`: a minus sign, a
/// run of digits and dots, then `e` or `E`, a sign and a run of digits.
pub open spec fn number_end(s: Seq<char>, j: int) -> int {
    let a = if 0 <= j < s.len() && s[j] == '-' {
        j + 1
    } else {
        j
    };
    let b = scan_mantissa(s, a);
    if 0 <= b < s.len() && (s[b] == 'e' || s[b] == 'E') {
        let c = if b + 1 < s.len() && (s[b + 1] == '+' || s[b + 1] == '-') {
            b + 2
        } else {
            b + 1
        };
        scan_digits(s, c)
    } else {
        b
    }
}

/// The number of digits in a row in `t` from index `i`.
pub open spec fn digit_run(t: Seq<char>, i: int) -> int {
    scan_digits(t, i) - i
}

/// `t` is a decimal floating-point literal as std's `f64::from_str` accepts
/// it, following its documented grammar:
/// `Sign? (Digit+ | Digit+ '.' Digit* | Digit* '.' Digit+) ('e' Sign? Digit+)?`
/// with `e` in either case (the words `inf`, `infinity` and `nan` of that
/// grammar are left out: the texts read here never hold them).
pub open spec fn float_syntax(t: Seq<char>) -> bool {
    let a: int = if t.len() > 0 && (t[0] == '+' || t[0] == '-') {
        1
    } else {
        0
    };
    let d1 = digit_run(t, a);
    let p = a + d1;
    let has_dot = p < t.len() && t[p] == '.';
    let q = if has_dot {
        p + 1
    } else {
        p
    };
    let d2 = if has_dot {
        digit_run(t, q)
    } else {
        0
    };
    let r = q + d2;
    &&& d1 + d2 > 0
    &&& (r == t.len() || ((t[r] == 'e' || t[r] == 'E') && exponent_syntax(t, r + 1)))
}

/// `t` from index `k` on is a sign (or none) and at least one digit.
pub open spec fn exponent_syntax(t: Seq<char>, k: int) -> bool {
    let k2 = if k < t.len() && (t[k] == '+' || t[k] == '-') {
        k + 1
    } else {
        k
    };
    digit_run(t, k2) > 0 && scan_digits(t, k2) == t.len()
}

/// A number starting at index `j`.
pub open spec fn parse_number(s: Seq<char>, j: int) -> Parsed {
    let e = number_end(s, j);
    let t = s.subrange(j, e);
    if float_syntax(t) {
        Ok((SpecValue::Number(t), e))
    } else {
        Err(msg_invalid_number(t))
    }
}

/// `w` stands in `s` at index `j`.
pub open spec fn word_at(s: Seq<char>, j: int, w: Seq<char>) -> bool {
    0 <= j && j + w.len() <= s.len() && s.subrange(j, j + w.len()) == w
}

/// The characters of `true`.
pub open spec fn word_true() -> Seq<char> {
    seq!['t', 'r', 'u', 'e']
}

/// The characters of `false`.
pub open spec fn word_false() -> Seq<char> {
    seq!['f', 'a', 'l', 's', 'e']
}

/// The characters of `null`.
pub open spec fn word_null() -> Seq<char> {
    seq!['n', 'u', 'l', 'l']
}

/// `true` or `false` at index `j`.
pub open spec fn parse_bool(s: Seq<char>, j: int) -> Parsed {
    if word_at(s, j, word_true()) {
        Ok((SpecValue::Boolean(true), j + 4))
    } else if word_at(s, j, word_false()) {
        Ok((SpecValue::Boolean(false), j + 5))
    } else {
        Err(msg_expected_bool())
    }
}

/// `null` at index `j`.
pub open spec fn parse_null(s: Seq<char>, j: int) -> Parsed {
    if word_at(s, j, word_null()) {
        Ok((SpecValue::Null, j + 4))
    } else {
        Err(msg_expected_null())
    }
}

/// `entries` holds `key`.
pub open spec fn has_key(entries: Seq<(Seq<char>, SpecValue)>, key: Seq<char>) -> bool {
    exists|i: int| 0 <= i < entries.len() && entries[i].0 == key
}

/// The index of the first entry of `entries` with key `key`, or -1 when
/// there is none.
pub open spec fn key_index(entries: Seq<(Seq<char>, SpecValue)>, key: Seq<char>) -> int
    decreases entries.len(),
{
    if entries.len() == 0 {
        -1
    } else if entries[0].0 == key {
        0
    } else {
        let r = key_index(entries.subrange(1, entries.len() as int), key);
        if r < 0 {
            -1
        } else {
            r + 1
        }
    }
}

/// `entries` with `key` bound to `v`, as a map insertion: the entry of that
/// key takes the new value in place, or a new entry comes last.
pub open spec fn dict_insert(entries: Seq<(Seq<char>, SpecValue)>, key: Seq<char>, v: SpecValue) -> Seq<
    (Seq<char>, SpecValue),
> {
    let i = key_index(entries, key);
    if i >= 0 {
        entries.update(i, (key, v))
    } else {
        entries.push((key, v))
    }
}

/// `key_index` finds the first entry with the key, or tells that there is
/// none.
pub proof fn lemma_key_index(entries: Seq<(Seq<char>, SpecValue)>, key: Seq<char>)
    ensures
        key_index(entries, key) < 0 <==> !has_key(entries, key),
        key_index(entries, key) < 0 ==> key_index(entries, key) == -1,
        key_index(entries, key) >= 0 ==> {
            &&& key_index(entries, key) < entries.len()
            &&& entries[key_index(entries, key)].0 == key
            &&& forall|j: int| 0 <= j < key_index(entries, key) ==> entries[j].0 != key
        },
    decreases entries.len(),
{
    if entries.len() > 0 && entries[0].0 != key {
        let tail = entries.subrange(1, entries.len() as int);
        lemma_key_index(tail, key);
        if has_key(entries, key) {
            let i = choose|i: int| 0 <= i < entries.len() && entries[i].0 == key;
            assert(tail[i - 1] == entries[i]);
        }
        if has_key(tail, key) {
            let i = choose|i: int| 0 <= i < tail.len() && tail[i].0 == key;
            assert(tail[i] == entries[i + 1]);
        }
        assert forall|j: int| 0 <= j < key_index(entries, key) implies entries[j].0 != key by {
            if j > 0 {
                assert(tail[j - 1] == entries[j]);
            }
        }
    }
}

/// Inserting a well-keyed value keeps every value of the entries well-keyed.
proof fn lemma_dict_insert_well_keyed(
    entries: Seq<(Seq<char>, SpecValue)>,
    key: Seq<char>,
    v: SpecValue,
)
    requires
        forall|j: int| 0 <= j < entries.len() ==> well_keyed(#[trigger] entries[j].1),
        well_keyed(v),
    ensures
        forall|j: int|
            0 <= j < dict_insert(entries, key, v).len() ==> well_keyed(
                #[trigger] dict_insert(entries, key, v)[j].1,
            ),
{
    let r = dict_insert(entries, key, v);
    lemma_key_index(entries, key);
    let i = key_index(entries, key);
    if i >= 0 {
        assert forall|j: int| 0 <= j < r.len() implies well_keyed(#[trigger] r[j].1) by {
            if j != i {
                assert(r[j] == entries[j]);
            }
        }
    } else {
        assert forall|j: int| 0 <= j < r.len() implies well_keyed(#[trigger] r[j].1) by {
            if j < entries.len() {
                assert(r[j] == entries[j]);
            }
        }
    }
}

/// A value starting at the first index at or after `i` that does not hold
/// white space. (The reading functions also check index bounds that every
/// call from them meets: skipping white space never moves back, and a value
/// read ends after where it starts; the checks keep the recursion visibly
/// finite.)
pub open spec fn parse_value(s: Seq<char>, i: int) -> Parsed
    decreases s.len() - i, 2int,
{
    if i < 0 || i > s.len() {
        Err(msg_end())
    } else {
        let j = skip_ws(s, i);
        if j < i || j >= s.len() {
            Err(msg_end())
        } else if s[j] == '"' {
            match string_lit(s, j) {
                Ok((t, e)) => Ok((SpecValue::String(t), e)),
                Err(m) => Err(m),
            }
        } else if s[j] == '{' {
            parse_object(s, j)
        } else if s[j] == '[' {
            parse_array(s, j)
        } else if s[j] == 't' || s[j] == 'f' {
            parse_bool(s, j)
        } else if s[j] == 'n' {
            parse_null(s, j)
        } else if s[j] == '-' || is_digit(s[j]) {
            parse_number(s, j)
        } else {
            Err(msg_unexpected(s[j]))
        }
    }
}

/// An array whose `[` stands at index `j`.
pub open spec fn parse_array(s: Seq<char>, j: int) -> Parsed
    decreases s.len() - j, 1int,
{
    if j < 0 || j >= s.len() {
        Err(msg_end())
    } else {
        let k = skip_ws(s, j + 1);
        if k <= j || k > s.len() {
            Err(msg_end())
        } else if k < s.len() && s[k] == ']' {
            Ok((SpecValue::List(Seq::empty()), k + 1))
        } else {
            array_items(s, k, Seq::empty())
        }
    }
}

/// The items of an array from index `k` on, with `acc` read so far.
pub open spec fn array_items(s: Seq<char>, k: int, acc: Seq<SpecValue>) -> Parsed
    decreases s.len() - k, 3int,
{
    if k < 0 || k > s.len() {
        Err(msg_end())
    } else {
        match parse_value(s, k) {
            Err(m) => Err(m),
            Ok((v, e)) => {
                let m = skip_ws(s, e);
                if e <= k || m < e || m > s.len() {
                    Err(msg_end())
                } else if m < s.len() && s[m] == ']' {
                    Ok((SpecValue::List(acc.push(v)), m + 1))
                } else if m < s.len() && s[m] == ',' {
                    array_items(s, m + 1, acc.push(v))
                } else {
                    Err(msg_array_sep())
                }
            },
        }
    }
}

/// An object whose `{` stands at index `j`.
pub open spec fn parse_object(s: Seq<char>, j: int) -> Parsed
    decreases s.len() - j, 1int,
{
    if j < 0 || j >= s.len() {
        Err(msg_end())
    } else {
        let k = skip_ws(s, j + 1);
        if k <= j || k > s.len() {
            Err(msg_end())
        } else if k < s.len() && s[k] == '}' {
            Ok((SpecValue::Dict(Seq::empty()), k + 1))
        } else {
            object_items(s, k, Seq::empty())
        }
    }
}

/// The entries of an object from index `k` on, with `acc` read so far.
pub open spec fn object_items(s: Seq<char>, k: int, acc: Seq<(Seq<char>, SpecValue)>) -> Parsed
    decreases s.len() - k, 3int,
{
    let k2 = skip_ws(s, k);
    if k < 0 || k > s.len() || k2 < k {
        Err(msg_end())
    } else {
        match string_lit(s, k2) {
            Err(m) => Err(m),
            Ok((key, e1)) => {
                let c = skip_ws(s, e1);
                if c < e1 || e1 <= k2 {
                    Err(msg_end())
                } else if !(c < s.len() && s[c] == ':') {
                    Err(msg_colon())
                } else {
                    match parse_value(s, c + 1) {
                        Err(m) => Err(m),
                        Ok((v, e2)) => {
                            let m = skip_ws(s, e2);
                            let acc2 = dict_insert(acc, key, v);
                            if e2 <= c || m < e2 || m > s.len() {
                                Err(msg_end())
                            } else if m < s.len() && s[m] == '}' {
                                Ok((SpecValue::Dict(acc2), m + 1))
                            } else if m < s.len() && s[m] == ',' {
                                object_items(s, m + 1, acc2)
                            } else {
                                Err(msg_object_sep())
                            }
                        },
                    }
                }
            },
        }
    }
}

/// What `json_decode` gives for a text: the value at the start of the
/// trimmed text (what follows it is ignored), or the error message after
/// "json_decode(): ".
pub open spec fn decode(input: Seq<char>) -> Result<SpecValue, Seq<char>> {
    match parse_value(trimmed(input), 0) {
        Ok((v, _)) => Ok(v),
        Err(m) => Err("json_decode(): "@ + m),
    }
}


/// `r` is what the parse `p` describes: the same value and end, or the same
/// message.
pub open spec fn parsed_as(r: Result<(Value, usize), String>, p: Parsed) -> bool {
    match r {
        Ok((v, e)) => p == Ok::<(SpecValue, int), Seq<char>>((v@, e as int)),
        Err(m) => p == Err::<(SpecValue, int), Seq<char>>(m@),
    }
}

/// The first byte of the UTF-8 encoding of `c`.
fn lead_byte_exec(c: char) -> (b: u8)
    ensures
        b == lead_byte(c),
{
    let u = c as u32;
    proof {
        vstd::utf8::char_is_scalar(c);
    }
    if u <= 0x7F {
        (u & 0x7F) as u8
    } else if u <= 0x7FF {
        0xC0 | ((u >> 6) & 0x1F) as u8
    } else if u <= 0xFFFF {
        0xE0 | ((u >> 12) & 0x0F) as u8
    } else {
        0xF0 | ((u >> 18) & 0x7) as u8
    }
}

/// The message for a value that starts with `c`.
fn unexpected_message(c: char) -> (m: String)
    ensures
        m@ == msg_unexpected(c),
{
    let mut m = "unexpected character '".to_owned();
    let b = lead_byte_exec(c);
    push_char(&mut m, b as char);
    append_str(&mut m, "' in JSON");
    m
}

/// A string literal starting at index `j`.
fn string_lit_exec(s: &Vec<char>, j: usize) -> (r: Result<(String, usize), String>)
    requires
        j <= s@.len(),
    ensures
        match r {
            Ok((t, e)) => string_lit(s@, j as int) == Ok::<(Seq<char>, int), Seq<char>>((t@, e as int))
                && j < e <= s@.len(),
            Err(m) => string_lit(s@, j as int) == Err::<(Seq<char>, int), Seq<char>>(m@),
        },
{
    if j >= s.len() || s[j] != '"' {
        return Err("expected '\"'".to_owned());
    }
    let mut acc: Vec<char> = Vec::new();
    let mut k = j + 1;
    loop
        invariant
            j < k <= s@.len(),
            string_lit(s@, j as int) == string_body(s@, k as int, acc@),
        decreases s@.len() - k,
    {
        if k >= s.len() {
            return Err("unterminated string".to_owned());
        }
        let c = s[k];
        if c == '"' {
            return Ok((string_of(&acc), k + 1));
        } else if c == '\\' {
            if k + 1 >= s.len() {
                return Err("unterminated escape".to_owned());
            }
            let d = s[k + 1];
            let u = if d == 'n' {
                '\n'
            } else if d == 't' {
                '\t'
            } else {
                d
            };
            acc.push(u);
            k = k + 2;
        } else {
            acc.push(c);
            k = k + 1;
        }
    }
}

/// The end of the run of digits and dots from index `k`.
fn scan_mantissa_exec(s: &Vec<char>, k: usize) -> (r: usize)
    requires
        k <= s@.len(),
    ensures
        r as int == scan_mantissa(s@, k as int),
        k <= r <= s@.len(),
{
    let mut i = k;
    while i < s.len() && (('0' <= s[i] && s[i] <= '9') || s[i] == '.')
        invariant
            k <= i <= s@.len(),
            scan_mantissa(s@, k as int) == scan_mantissa(s@, i as int),
        decreases s@.len() - i,
    {
        i = i + 1;
    }
    i
}

/// The end of the run of digits from index `k`.
fn scan_digits_exec(s: &Vec<char>, k: usize) -> (r: usize)
    requires
        k <= s@.len(),
    ensures
        r as int == scan_digits(s@, k as int),
        k <= r <= s@.len(),
{
    let mut i = k;
    while i < s.len() && '0' <= s[i] && s[i] <= '9'
        invariant
            k <= i <= s@.len(),
            scan_digits(s@, k as int) == scan_digits(s@, i as int),
        decreases s@.len() - i,
    {
        i = i + 1;
    }
    i
}

/// Whether `t` follows the grammar of a floating-point literal.
fn float_syntax_exec(t: &Vec<char>) -> (r: bool)
    ensures
        r == float_syntax(t@),
{
    let n = t.len();
    let a: usize = if n > 0 && (t[0] == '+' || t[0] == '-') {
        1
    } else {
        0
    };
    let p = scan_digits_exec(t, a);
    let d1 = p - a;
    let has_dot = p < n && t[p] == '.';
    let q = if has_dot {
        p + 1
    } else {
        p
    };
    let r0 = if has_dot {
        scan_digits_exec(t, q)
    } else {
        q
    };
    let d2 = r0 - q;
    if d1 == 0 && d2 == 0 {
        return false;
    }
    if r0 == n {
        return true;
    }
    if !(t[r0] == 'e' || t[r0] == 'E') {
        return false;
    }
    let k = r0 + 1;
    let k2 = if k < n && (t[k] == '+' || t[k] == '-') {
        k + 1
    } else {
        k
    };
    let end = scan_digits_exec(t, k2);
    end > k2 && end == n
}

/// A number starting at index `j`.
fn parse_number_exec(s: &Vec<char>, j: usize) -> (r: Result<(Value, usize), String>)
    requires
        j < s@.len(),
    ensures
        parsed_as(r, parse_number(s@, j as int)),
        r matches Ok((_, e)) ==> j < e <= s@.len(),
{
    let n = s.len();
    let a = if s[j] == '-' {
        j + 1
    } else {
        j
    };
    let b = scan_mantissa_exec(s, a);
    let e = if b < s.len() && (s[b] == 'e' || s[b] == 'E') {
        let c = if b + 1 < s.len() && (s[b + 1] == '+' || s[b + 1] == '-') {
            b + 2
        } else {
            b + 1
        };
        scan_digits_exec(s, c)
    } else {
        b
    };
    assert(e as int == number_end(s@, j as int));
    let mut t: Vec<char> = Vec::new();
    for i in j..e
        invariant
            j <= e <= s@.len(),
            t@ == s@.subrange(j as int, i as int),
    {
        t.push(s[i]);
        assert(s@.subrange(j as int, i + 1) == s@.subrange(j as int, i as int).push(s@[i as int]));
    }
    let text = string_of(&t);
    if float_syntax_exec(&t) {
        if e == j {
            assert(t@.len() == 0);
            assert(!float_syntax(t@));
        }
        Ok((Value::Number(text), e))
    } else {
        let mut m = "invalid number: ".to_owned();
        append_str(&mut m, text.as_str());
        Err(m)
    }
}

/// `true` or `false` at index `j`.
fn parse_bool_exec(s: &Vec<char>, j: usize) -> (r: Result<(Value, usize), String>)
    requires
        j < s@.len(),
    ensures
        parsed_as(r, parse_bool(s@, j as int)),
        r matches Ok((_, e)) ==> j < e <= s@.len(),
{
    let n = s.len();
    if n - j >= 4 && s[j] == 't' && s[j + 1] == 'r' && s[j + 2] == 'u' && s[j + 3] == 'e' {
        assert(s@.subrange(j as int, j + 4) =~= word_true());
        Ok((Value::Boolean(true), j + 4))
    } else if n - j >= 5 && s[j] == 'f' && s[j + 1] == 'a' && s[j + 2] == 'l' && s[j + 3] == 's'
        && s[j + 4] == 'e' {
        assert(!word_at(s@, j as int, word_true())) by {
            if word_at(s@, j as int, word_true()) {
                assert(s@.subrange(j as int, j + 4)[0] == 't');
            }
        }
        assert(s@.subrange(j as int, j + 5) =~= word_false());
        Ok((Value::Boolean(false), j + 5))
    } else {
        assert(!word_at(s@, j as int, word_true())) by {
            if word_at(s@, j as int, word_true()) {
                assert(s@.subrange(j as int, j + 4)[0] == 't');
                assert(s@.subrange(j as int, j + 4)[1] == 'r');
                assert(s@.subrange(j as int, j + 4)[2] == 'u');
                assert(s@.subrange(j as int, j + 4)[3] == 'e');
            }
        }
        assert(!word_at(s@, j as int, word_false())) by {
            if word_at(s@, j as int, word_false()) {
                assert(s@.subrange(j as int, j + 5)[0] == 'f');
                assert(s@.subrange(j as int, j + 5)[1] == 'a');
                assert(s@.subrange(j as int, j + 5)[2] == 'l');
                assert(s@.subrange(j as int, j + 5)[3] == 's');
                assert(s@.subrange(j as int, j + 5)[4] == 'e');
            }
        }
        Err("expected 'true' or 'false'".to_owned())
    }
}

/// `null` at index `j`.
fn parse_null_exec(s: &Vec<char>, j: usize) -> (r: Result<(Value, usize), String>)
    requires
        j < s@.len(),
    ensures
        parsed_as(r, parse_null(s@, j as int)),
        r matches Ok((_, e)) ==> j < e <= s@.len(),
{
    let n = s.len();
    if n - j >= 4 && s[j] == 'n' && s[j + 1] == 'u' && s[j + 2] == 'l' && s[j + 3] == 'l' {
        assert(s@.subrange(j as int, j + 4) =~= word_null());
        Ok((Value::Null, j + 4))
    } else {
        assert(!word_at(s@, j as int, word_null())) by {
            if word_at(s@, j as int, word_null()) {
                assert(s@.subrange(j as int, j + 4)[0] == 'n');
                assert(s@.subrange(j as int, j + 4)[1] == 'u');
                assert(s@.subrange(j as int, j + 4)[2] == 'l');
                assert(s@.subrange(j as int, j + 4)[3] == 'l');
            }
        }
        Err("expected 'null'".to_owned())
    }
}


/// The models of items after one more is pushed.
proof fn lemma_items_view_push(items: Seq<Value>, v: Value)
    ensures
        items_view(items.push(v)) == items_view(items).push(model(v)),
{
    assert(items_view(items.push(v)) =~= items_view(items).push(model(v)));
}

/// Binds `key` to `v` in `acc`, as a map insertion.
fn dict_insert_exec(acc: &mut Vec<Entry>, key: String, v: Value)
    requires
        distinct_keys(entries_view(old(acc)@)),
    ensures
        entries_view(final(acc)@) == dict_insert(entries_view(old(acc)@), key@, v@),
        distinct_keys(entries_view(final(acc)@)),
{
    let ghost ev = entries_view(acc@);
    proof {
        lemma_entries_view(acc@);
    }
    let n = acc.len();
    let mut i: usize = 0;
    while i < n
        invariant
            n == acc@.len(),
            i <= n,
            acc@ == old(acc)@,
            ev == entries_view(acc@),
            ev.len() == n,
            distinct_keys(ev),
            forall|j: int| 0 <= j < n ==> #[trigger] ev[j] == (acc@[j].key@, model(acc@[j].value)),
            forall|j: int| 0 <= j < i ==> ev[j].0 != key@,
        decreases n - i,
    {
        if acc[i].key == key {
            assert(ev[i as int].0 == key@);
            proof {
                lemma_key_index(ev, key@);
                let c = key_index(ev, key@);
                if c < i {
                    assert(ev[c].0 != key@);
                }
                assert(c == i);
            }
            let x = Entry { key, value: v };
            proof {
                lemma_entries_view_update(acc@, i as int, x);
            }
            acc.set(i, x);
            assert(distinct_keys(entries_view(acc@))) by {
                let nv = entries_view(acc@);
                assert forall|a: int, b: int|
                    0 <= a < nv.len() && 0 <= b < nv.len() && a != b implies nv[a].0 != nv[b].0 by {
                    if a != i && b != i {
                        assert(nv[a] == ev[a] && nv[b] == ev[b]);
                    } else if a == i {
                        assert(nv[b] == ev[b]);
                    } else {
                        assert(nv[a] == ev[a]);
                    }
                }
            }
            return;
        }
        i = i + 1;
    }
    assert(!has_key(ev, key@));
    proof {
        lemma_key_index(ev, key@);
    }
    let x = Entry { key, value: v };
    proof {
        lemma_entries_view_push(acc@, x);
    }
    acc.push(x);
    assert(distinct_keys(entries_view(acc@))) by {
        let nv = entries_view(acc@);
        assert forall|a: int, b: int|
            0 <= a < nv.len() && 0 <= b < nv.len() && a != b implies nv[a].0 != nv[b].0 by {
            if a < n && b < n {
                assert(nv[a] == ev[a] && nv[b] == ev[b]);
            } else if a == n {
                assert(nv[b] == ev[b]);
            } else {
                assert(nv[a] == ev[a]);
            }
        }
    }
}

/// A value starting at the first index at or after `i` that does not hold
/// white space.
fn parse_value_exec(s: &Vec<char>, i: usize) -> (r: Result<(Value, usize), String>)
    requires
        i <= s@.len(),
    ensures
        parsed_as(r, parse_value(s@, i as int)),
        r matches Ok((_, e)) ==> i < e <= s@.len(),
        r matches Ok((v, _)) ==> well_keyed(v@),
    decreases s@.len() - i, 2int,
{
    let j = skip_ws_exec(s, i);
    proof {
        lemma_skip_ws(s@, i as int);
    }
    if j >= s.len() {
        return Err("unexpected end of JSON".to_owned());
    }
    let c = s[j];
    if c == '"' {
        match string_lit_exec(s, j) {
            Ok((t, e)) => Ok((Value::String(t), e)),
            Err(m) => Err(m),
        }
    } else if c == '{' {
        parse_object_exec(s, j)
    } else if c == '[' {
        parse_array_exec(s, j)
    } else if c == 't' || c == 'f' {
        parse_bool_exec(s, j)
    } else if c == 'n' {
        parse_null_exec(s, j)
    } else if c == '-' || ('0' <= c && c <= '9') {
        parse_number_exec(s, j)
    } else {
        Err(unexpected_message(c))
    }
}

/// An array whose `[` stands at index `j`.
fn parse_array_exec(s: &Vec<char>, j: usize) -> (r: Result<(Value, usize), String>)
    requires
        j < s@.len(),
        s@[j as int] == '[',
    ensures
        parsed_as(r, parse_array(s@, j as int)),
        r matches Ok((_, e)) ==> j < e <= s@.len(),
        r matches Ok((v, _)) ==> well_keyed(v@),
    decreases s@.len() - j, 1int,
{
    let n = s.len();
    let mut k = skip_ws_exec(s, j + 1);
    proof {
        lemma_skip_ws(s@, j + 1);
    }
    if k < n && s[k] == ']' {
        let empty: Vec<Value> = Vec::new();
        proof {
            lemma_list_view(empty);
            assert(items_view(empty@) =~= Seq::<SpecValue>::empty());
        }
        return Ok((Value::List(empty), k + 1));
    }
    let mut acc: Vec<Value> = Vec::new();
    assert(items_view(acc@) =~= Seq::<SpecValue>::empty());
    loop
        invariant
            n == s@.len(),
            j < k <= n,
            parse_array(s@, j as int) == array_items(s@, k as int, items_view(acc@)),
            forall|q: int| 0 <= q < acc@.len() ==> well_keyed(#[trigger] items_view(acc@)[q]),
        decreases n - k,
    {
        match parse_value_exec(s, k) {
            Err(m) => {
                return Err(m);
            },
            Ok((v, e)) => {
                let m = skip_ws_exec(s, e);
                proof {
                    lemma_skip_ws(s@, e as int);
                    lemma_items_view_push(acc@, v);
                }
                acc.push(v);
                if m < n && s[m] == ']' {
                    proof {
                        lemma_list_view(acc);
                    }
                    return Ok((Value::List(acc), m + 1));
                } else if m < n && s[m] == ',' {
                    k = m + 1;
                } else {
                    return Err("expected ',' or ']' in array".to_owned());
                }
            },
        }
    }
}

/// An object whose `{` stands at index `j`.
fn parse_object_exec(s: &Vec<char>, j: usize) -> (r: Result<(Value, usize), String>)
    requires
        j < s@.len(),
        s@[j as int] == '{',
    ensures
        parsed_as(r, parse_object(s@, j as int)),
        r matches Ok((_, e)) ==> j < e <= s@.len(),
        r matches Ok((v, _)) ==> well_keyed(v@),
    decreases s@.len() - j, 1int,
{
    let n = s.len();
    let mut k = skip_ws_exec(s, j + 1);
    proof {
        lemma_skip_ws(s@, j + 1);
    }
    let mut acc: Vec<Entry> = Vec::new();
    assert(entries_view(acc@) =~= Seq::<(Seq<char>, SpecValue)>::empty());
    if k < n && s[k] == '}' {
        return Ok((Value::Dict(acc), k + 1));
    }
    loop
        invariant
            n == s@.len(),
            j < k <= n,
            parse_object(s@, j as int) == object_items(s@, k as int, entries_view(acc@)),
            distinct_keys(entries_view(acc@)),
            forall|q: int|
                0 <= q < entries_view(acc@).len() ==> well_keyed(#[trigger] entries_view(acc@)[q].1),
        decreases n - k,
    {
        let k2 = skip_ws_exec(s, k);
        proof {
            lemma_skip_ws(s@, k as int);
        }
        match string_lit_exec(s, k2) {
            Err(m) => {
                return Err(m);
            },
            Ok((key, e1)) => {
                let c = skip_ws_exec(s, e1);
                proof {
                    lemma_skip_ws(s@, e1 as int);
                }
                if !(c < n && s[c] == ':') {
                    return Err("expected ':' after object key".to_owned());
                }
                match parse_value_exec(s, c + 1) {
                    Err(m) => {
                        return Err(m);
                    },
                    Ok((v, e2)) => {
                        let m = skip_ws_exec(s, e2);
                        proof {
                            lemma_skip_ws(s@, e2 as int);
                        }
                        proof {
                            lemma_dict_insert_well_keyed(entries_view(acc@), key@, v@);
                        }
                        dict_insert_exec(&mut acc, key, v);
                        if m < n && s[m] == '}' {
                            return Ok((Value::Dict(acc), m + 1));
                        } else if m < n && s[m] == ',' {
                            k = m + 1;
                        } else {
                            return Err("expected ',' or '}' in object".to_owned());
                        }
                    },
                }
            },
        }
    }
}

/// `parse_json_value`: the value at the start of `input` once its leading
/// white space is skipped, dispatched on the first character that follows
/// (`"` a string, `{` an object, `[` an array, `t` or `f` a boolean, `n`
/// null, `-` or a digit a number, anything else an error), together with
/// the text after the value; or the message of what went wrong.
pub fn parse_json_value(input: &str) -> (r: Result<(Value, String), String>)
    ensures
        r is Ok <==> parse_value(input@, 0) is Ok,
        r matches Ok((v, rest)) ==> {
            &&& parse_value(input@, 0) == Ok::<(SpecValue, int), Seq<char>>(
                (v@, input@.len() - rest@.len()),
            )
            &&& rest@ == input@.subrange(input@.len() - rest@.len(), input@.len() as int)
            &&& well_keyed(v@)
        },
        r matches Err(m) ==> parse_value(input@, 0) == Err::<(SpecValue, int), Seq<char>>(m@),
{
    let s = chars_of(input);
    match parse_value_exec(&s, 0) {
        Ok((v, e)) => {
            let rest = crate::text::string_of_range(&s, e, s.len());
            Ok((v, rest))
        },
        Err(m) => Err(m),
    }
}

/// `json_decode`: the value at the start of the text once leading and
/// trailing white space is dropped (anything after that value is ignored),
/// or the error message, which starts with "json_decode(): ".
pub fn json_decode(input: &str) -> (r: Result<Value, String>)
    ensures
        match r {
            Ok(v) => decode(input@) == Ok::<SpecValue, Seq<char>>(v@),
            Err(m) => decode(input@) == Err::<SpecValue, Seq<char>>(m@),
        },
        r matches Ok(v) ==> well_keyed(v@),
{
    let v = chars_of(input);
    let t = trimmed_chars(&v);
    match parse_value_exec(&t, 0) {
        Ok((val, _)) => Ok(val),
        Err(m) => {
            let mut out = "json_decode(): ".to_owned();
            append_str(&mut out, m.as_str());
            Err(out)
        },
    }
}

} // verus!
