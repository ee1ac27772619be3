//! What reading JSON gives back of what writing JSON wrote.

use vstd::prelude::*;
use crate::json::{entries_json, entry_json, escape, escape_char, items_json, quoted, to_json};
use crate::json_parse::{
    array_items, decode, dict_insert, float_syntax, has_key, is_digit, lemma_key_index,
    msg_end, msg_unexpected, number_end, object_items, parse_array, parse_bool, parse_null,
    parse_number, parse_object, parse_value, scan_digits, scan_mantissa, string_body, string_lit,
    word_at, word_false, word_null, word_true,
};
use crate::text::{
    back_ws, is_white_space, law_trim_surrounding, lemma_back_ws, lemma_skip_ws, lemma_skip_ws_to,
    skip_ws, trimmed,
};
use crate::strings::join;
use crate::value::{distinct_keys, SpecValue};

verus! {

/// `c` can stand in the text of a number.
pub open spec fn number_char(c: char) -> bool {
    is_digit(c) || c == '.' || c == '-' || c == '+' || c == 'e' || c == 'E'
}

/// `t` is read back as the number whose text it is: it starts with a minus
/// sign or a digit, the reader takes all of it as one number, and it follows
/// the grammar of a floating-point literal.
pub open spec fn number_text(t: Seq<char>) -> bool {
    &&& t.len() > 0
    &&& (t[0] == '-' || is_digit(t[0]))
    &&& number_end(t, 0) == t.len()
    &&& float_syntax(t)
}

/// A value that JSON text carries: null, a boolean, a number whose text is
/// read back as it is, a string, a list of such values, or a dictionary of
/// such values whose keys are distinct.
pub open spec fn json_data(v: SpecValue) -> bool
    decreases v,
{
    match v {
        SpecValue::Number(t) => number_text(t),
        SpecValue::String(_) => true,
        SpecValue::Boolean(_) => true,
        SpecValue::Null => true,
        SpecValue::List(items) => forall|i: int| 0 <= i < items.len() ==> json_data(#[trigger] items[i]),
        SpecValue::Dict(entries) => {
            &&& distinct_keys(entries)
            &&& forall|i: int| 0 <= i < entries.len() ==> json_data(#[trigger] entries[i].1)
        },
        _ => false,
    }
}


/// The reading of a number stops at index `p`: the text ends there or holds
/// a character that no number holds.
pub open spec fn stops_number(s: Seq<char>, p: int) -> bool {
    p == s.len() || (0 <= p < s.len() && !number_char(s[p]))
}

/// `t` stands in `s` at index `i0`.
pub open spec fn stands_at(s: Seq<char>, i0: int, t: Seq<char>) -> bool {
    0 <= i0 && i0 + t.len() <= s.len() && s.subrange(i0, i0 + t.len()) == t
}

proof fn lemma_scan_mantissa_range(s: Seq<char>, a: int)
    requires
        0 <= a <= s.len(),
    ensures
        a <= scan_mantissa(s, a) <= s.len(),
        forall|k: int| a <= k < scan_mantissa(s, a) ==> is_digit(#[trigger] s[k]) || s[k] == '.',
    decreases s.len() - a,
{
    if a < s.len() && (is_digit(s[a]) || s[a] == '.') {
        lemma_scan_mantissa_range(s, a + 1);
    }
}

proof fn lemma_scan_digits_range(s: Seq<char>, a: int)
    requires
        0 <= a <= s.len(),
    ensures
        a <= scan_digits(s, a) <= s.len(),
        forall|k: int| a <= k < scan_digits(s, a) ==> is_digit(#[trigger] s[k]),
    decreases s.len() - a,
{
    if a < s.len() && is_digit(s[a]) {
        lemma_scan_digits_range(s, a + 1);
    }
}

/// Scanning digits and dots inside a copy of `t` in `s` ends where it ends
/// in `t`, when nothing of the kind follows the copy.
proof fn lemma_scan_mantissa_shift(s: Seq<char>, t: Seq<char>, i0: int, a: int)
    requires
        stands_at(s, i0, t),
        0 <= a <= t.len(),
        stops_number(s, i0 + t.len()),
    ensures
        scan_mantissa(s, i0 + a) == i0 + scan_mantissa(t, a),
    decreases t.len() - a,
{
    if a < t.len() {
        assert(s[i0 + a] == t[a]);
        if is_digit(t[a]) || t[a] == '.' {
            lemma_scan_mantissa_shift(s, t, i0, a + 1);
        }
    }
}

/// Scanning digits inside a copy of `t` in `s` ends where it ends in `t`,
/// when no digit follows the copy.
proof fn lemma_scan_digits_shift(s: Seq<char>, t: Seq<char>, i0: int, a: int)
    requires
        stands_at(s, i0, t),
        0 <= a <= t.len(),
        stops_number(s, i0 + t.len()),
    ensures
        scan_digits(s, i0 + a) == i0 + scan_digits(t, a),
    decreases t.len() - a,
{
    if a < t.len() {
        assert(s[i0 + a] == t[a]);
        if is_digit(t[a]) {
            lemma_scan_digits_shift(s, t, i0, a + 1);
        }
    }
}

/// A number's text standing in `s` and followed by something no number
/// holds is read to its end.
proof fn lemma_number_end_shift(s: Seq<char>, t: Seq<char>, i0: int)
    requires
        number_text(t),
        stands_at(s, i0, t),
        stops_number(s, i0 + t.len()),
    ensures
        number_end(s, i0) == i0 + t.len(),
{
    assert(s[i0] == t[0]);
    let a: int = if t[0] == '-' {
        1
    } else {
        0
    };
    lemma_scan_mantissa_shift(s, t, i0, a);
    lemma_scan_mantissa_range(t, a);
    let b = scan_mantissa(t, a);
    if b < t.len() {
        assert(s[i0 + b] == t[b]);
        if t[b] == 'e' || t[b] == 'E' {
            let c: int = if b + 1 < t.len() && (t[b + 1] == '+' || t[b + 1] == '-') {
                b + 2
            } else {
                b + 1
            };
            if b + 1 < t.len() {
                assert(s[i0 + b + 1] == t[b + 1]);
            }
            lemma_scan_digits_shift(s, t, i0, c);
        }
    }
}

/// Every character of a number's text can stand in a number.
proof fn lemma_number_chars(t: Seq<char>)
    requires
        number_text(t),
    ensures
        forall|k: int| 0 <= k < t.len() ==> number_char(#[trigger] t[k]),
{
    let a: int = if t[0] == '-' {
        1
    } else {
        0
    };
    lemma_scan_mantissa_range(t, a);
    let b = scan_mantissa(t, a);
    if b < t.len() && (t[b] == 'e' || t[b] == 'E') {
        let c: int = if b + 1 < t.len() && (t[b + 1] == '+' || t[b + 1] == '-') {
            b + 2
        } else {
            b + 1
        };
        lemma_scan_digits_range(t, c);
        assert forall|k: int| 0 <= k < t.len() implies number_char(#[trigger] t[k]) by {
            if k < a {
            } else if k < b {
            } else if k < c {
            } else {
            }
        }
    } else {
        assert forall|k: int| 0 <= k < t.len() implies number_char(#[trigger] t[k]) by {
            if k < a {
            } else {
            }
        }
    }
}


/// `c` can begin the JSON text of a value.
pub open spec fn value_start(c: char) -> bool {
    c == '"' || c == '[' || c == '{' || c == 't' || c == 'f' || c == 'n' || c == '-' || is_digit(c)
}

/// The JSON text of a value is not empty, begins with a character that can
/// begin a value and ends with one that is not white space.
proof fn lemma_json_ends(v: SpecValue)
    requires
        json_data(v),
    ensures
        to_json(v).len() > 0,
        value_start(to_json(v)[0]),
        !is_white_space(to_json(v)[0]),
        !is_white_space(to_json(v).last()),
{
    match v {
        SpecValue::Number(t) => {
            lemma_number_chars(t);
            assert(number_char(t.last()));
        },
        SpecValue::String(t) => {},
        SpecValue::Boolean(b) => {},
        SpecValue::Null => {},
        SpecValue::List(items) => {},
        SpecValue::Dict(entries) => {},
        _ => {},
    }
}

/// The pieces of a concatenation stand where the whole stands.
proof fn lemma_stands_split(s: Seq<char>, k: int, x: Seq<char>, y: Seq<char>)
    requires
        stands_at(s, k, x + y),
    ensures
        stands_at(s, k, x),
        stands_at(s, k + x.len(), y),
{
    let w = s.subrange(k, k + x.len() + y.len());
    assert(w == x + y);
    assert forall|i: int| 0 <= i < x.len() implies s.subrange(k, k + x.len())[i] == x[i] by {
        assert(w[i] == s[k + i]);
        assert((x + y)[i] == x[i]);
    }
    assert(s.subrange(k, k + x.len()) =~= x);
    assert forall|i: int| 0 <= i < y.len() implies s.subrange(k + x.len(), k + x.len() + y.len())[i] == y[i] by {
        assert(w[x.len() + i] == s[k + x.len() + i]);
        assert((x + y)[x.len() + i] == y[i]);
    }
    assert(s.subrange(k + x.len(), k + x.len() + y.len()) =~= y);
}

/// A written string is read back: the escapes and the closing quote.
proof fn lemma_read_string_body(s: Seq<char>, k: int, acc: Seq<char>, t: Seq<char>)
    requires
        stands_at(s, k, escape(t) + seq!['"']),
    ensures
        string_body(s, k, acc) == Ok::<(Seq<char>, int), Seq<char>>((acc + t, k + escape(t).len() + 1)),
    decreases t.len(),
{
    let x = escape(t) + seq!['"'];
    assert(s[k] == x[0]);
    if t.len() == 0 {
        assert(acc + t =~= acc);
    } else {
        let c = t[0];
        let rest = t.drop_first();
        assert(escape(t) == escape_char(c) + escape(rest));
        assert(x =~= escape_char(c) + (escape(rest) + seq!['"']));
        lemma_stands_split(s, k, escape_char(c), escape(rest) + seq!['"']);
        if c == '\\' || c == '"' {
            assert(s[k] == '\\');
            assert(s[k + 1] == c);
            lemma_read_string_body(s, k + 2, acc.push(c), rest);
            assert(acc.push(c) + rest =~= acc + t);
        } else {
            assert(s[k] == c);
            lemma_read_string_body(s, k + 1, acc.push(c), rest);
            assert(acc.push(c) + rest =~= acc + t);
        }
    }
}

/// The characters of a text standing in `s` are those of `s` there.
proof fn lemma_stands_index(s: Seq<char>, k: int, x: Seq<char>)
    requires
        stands_at(s, k, x),
    ensures
        forall|p: int| 0 <= p < x.len() ==> #[trigger] s[k + p] == x[p],
{
    assert forall|p: int| 0 <= p < x.len() implies #[trigger] s[k + p] == x[p] by {
        assert(s.subrange(k, k + x.len())[p] == s[k + p]);
    }
}

/// The JSON text of a non-empty dictionary's entries begins with a quote.
proof fn lemma_entries_json_first(entries: Seq<(Seq<char>, SpecValue)>)
    requires
        entries.len() >= 1,
    ensures
        entries_json(entries).len() > 0,
        entries_json(entries)[0] == '"',
{
    let e = entry_json(entries[0].0, entries[0].1);
    assert(e[0] == '"');
    if entries.len() > 1 {
        assert(entries_json(entries)[0] == e[0]);
    }
}

/// The JSON text of a value, after white space, is read back as the value,
/// when nothing that a number could hold follows it.
proof fn lemma_read_value(s: Seq<char>, i: int, i0: int, v: SpecValue)
    requires
        json_data(v),
        0 <= i <= i0,
        forall|p: int| i <= p < i0 ==> is_white_space(#[trigger] s[p]),
        stands_at(s, i0, to_json(v)),
        stops_number(s, i0 + to_json(v).len()),
    ensures
        parse_value(s, i) == Ok::<(SpecValue, int), Seq<char>>((v, i0 + to_json(v).len())),
    decreases v,
{
    let x = to_json(v);
    lemma_json_ends(v);
    lemma_stands_index(s, i0, x);
    assert(s[i0] == x[0]);
    lemma_skip_ws_to(s, i, i0);
    match v {
        SpecValue::Number(t) => {
            lemma_number_end_shift(s, t, i0);
        },
        SpecValue::String(t) => {
            assert(x =~= seq!['"'] + (escape(t) + seq!['"']));
            lemma_stands_split(s, i0, seq!['"'], escape(t) + seq!['"']);
            lemma_read_string_body(s, i0 + 1, Seq::empty(), t);
            assert(Seq::<char>::empty() + t =~= t);
        },
        SpecValue::Boolean(b) => {
            if b {
                assert(word_at(s, i0, word_true()));
            } else {
                assert(!word_at(s, i0, word_true())) by {
                    if word_at(s, i0, word_true()) {
                        assert(s.subrange(i0, i0 + 4)[0] == 't');
                    }
                }
                assert(word_at(s, i0, word_false()));
            }
        },
        SpecValue::Null => {
            assert(word_at(s, i0, word_null()));
        },
        SpecValue::List(items) => {
            let body = items_json(items);
            assert(x =~= seq!['['] + (body + seq![']']));
            lemma_stands_split(s, i0, seq!['['], body + seq![']']);
            lemma_stands_index(s, i0 + 1, body + seq![']']);
            if items.len() == 0 {
                assert(s[i0 + 1] == ']');
                lemma_skip_ws_to(s, i0 + 1, i0 + 1);
                assert(items =~= Seq::<SpecValue>::empty());
            } else {
                lemma_json_ends(items[0]);
                assert(body[0] == to_json(items[0])[0]);
                assert(s[i0 + 1] == body[0]);
                lemma_skip_ws_to(s, i0 + 1, i0 + 1);
                lemma_read_items(s, i0 + 1, i0 + 1, Seq::empty(), items);
                assert(Seq::<SpecValue>::empty() + items =~= items);
            }
        },
        SpecValue::Dict(entries) => {
            let body = entries_json(entries);
            assert(x =~= seq!['{'] + (body + seq!['}']));
            lemma_stands_split(s, i0, seq!['{'], body + seq!['}']);
            lemma_stands_index(s, i0 + 1, body + seq!['}']);
            if entries.len() == 0 {
                assert(s[i0 + 1] == '}');
                lemma_skip_ws_to(s, i0 + 1, i0 + 1);
                assert(entries =~= Seq::<(Seq<char>, SpecValue)>::empty());
            } else {
                lemma_entries_json_first(entries);
                assert(s[i0 + 1] == body[0]);
                lemma_skip_ws_to(s, i0 + 1, i0 + 1);
                assert(Seq::<(Seq<char>, SpecValue)>::empty() + entries =~= entries);
                lemma_read_entries(s, i0 + 1, i0 + 1, Seq::empty(), entries);
            }
        },
        _ => {},
    }
}

/// The JSON text of a non-empty list's items and the closing bracket are
/// read back as those items after the ones read so far.
proof fn lemma_read_items(s: Seq<char>, k: int, k0: int, acc: Seq<SpecValue>, items: Seq<SpecValue>)
    requires
        items.len() >= 1,
        forall|i: int| 0 <= i < items.len() ==> json_data(#[trigger] items[i]),
        0 <= k <= k0,
        forall|p: int| k <= p < k0 ==> is_white_space(#[trigger] s[p]),
        stands_at(s, k0, items_json(items) + seq![']']),
    ensures
        array_items(s, k, acc) == Ok::<(SpecValue, int), Seq<char>>(
            (SpecValue::List(acc + items), k0 + items_json(items).len() + 1),
        ),
    decreases items,
{
    let v0 = items[0];
    let x0 = to_json(v0);
    let n0 = x0.len();
    assert(json_data(v0));
    lemma_json_ends(v0);
    let whole = items_json(items) + seq![']'];
    lemma_stands_index(s, k0, whole);
    if items.len() == 1 {
        assert(whole =~= x0 + seq![']']);
        lemma_stands_split(s, k0, x0, seq![']']);
        assert(s[k0 + n0] == ']');
        lemma_read_value(s, k, k0, v0);
        lemma_skip_ws_to(s, k0 + n0, k0 + n0);
        assert(acc.push(v0) =~= acc + items);
    } else {
        let rest = items.subrange(1, items.len() as int);
        let xr = items_json(rest);
        assert(whole =~= x0 + (seq![',', ' '] + (xr + seq![']'])));
        lemma_stands_split(s, k0, x0, seq![',', ' '] + (xr + seq![']']));
        lemma_stands_split(s, k0 + n0, seq![',', ' '], xr + seq![']']);
        lemma_stands_index(s, k0 + n0, seq![',', ' ']);
        assert(s[k0 + n0] == ',');
        assert(s[k0 + n0 + 1] == ' ');
        lemma_read_value(s, k, k0, v0);
        lemma_skip_ws_to(s, k0 + n0, k0 + n0);
        assert forall|i: int| 0 <= i < rest.len() implies json_data(#[trigger] rest[i]) by {
            assert(rest[i] == items[i + 1]);
        }
        assert forall|p: int| k0 + n0 + 1 <= p < k0 + n0 + 2 implies is_white_space(#[trigger] s[p]) by {
            assert(p == k0 + n0 + 1);
        }
        lemma_read_items(s, k0 + n0 + 1, k0 + n0 + 2, acc.push(v0), rest);
        assert(acc.push(v0) + rest =~= acc + items);
    }
}

/// The JSON text of a non-empty dictionary's entries and the closing brace
/// are read back as those entries after the ones read so far.
proof fn lemma_read_entries(
    s: Seq<char>,
    k: int,
    k0: int,
    acc: Seq<(Seq<char>, SpecValue)>,
    entries: Seq<(Seq<char>, SpecValue)>,
)
    requires
        entries.len() >= 1,
        forall|i: int| 0 <= i < entries.len() ==> json_data(#[trigger] entries[i].1),
        distinct_keys(acc + entries),
        0 <= k <= k0,
        forall|p: int| k <= p < k0 ==> is_white_space(#[trigger] s[p]),
        stands_at(s, k0, entries_json(entries) + seq!['}']),
    ensures
        object_items(s, k, acc) == Ok::<(SpecValue, int), Seq<char>>(
            (SpecValue::Dict(acc + entries), k0 + entries_json(entries).len() + 1),
        ),
    decreases entries,
{
    let key = entries[0].0;
    let v0 = entries[0].1;
    assert(json_data(v0));
    let x0 = to_json(v0);
    let n0 = x0.len();
    lemma_json_ends(v0);
    let qk = quoted(escape(key));
    let ql = qk.len();
    // the entry: quoted key, ": ", value
    let head = qk + seq![':', ' '];
    assert(entry_json(key, v0) == head + x0);
    let tail_text: Seq<char> = if entries.len() == 1 {
        seq!['}']
    } else {
        seq![',', ' '] + (entries_json(entries.subrange(1, entries.len() as int)) + seq!['}'])
    };
    assert(entries_json(entries) + seq!['}'] =~= qk + (seq![':', ' '] + (x0 + tail_text)));
    lemma_stands_split(s, k0, qk, seq![':', ' '] + (x0 + tail_text));
    lemma_stands_split(s, k0 + ql, seq![':', ' '], x0 + tail_text);
    lemma_stands_split(s, k0 + ql + 2, x0, tail_text);
    lemma_stands_index(s, k0 + ql, seq![':', ' ']);
    lemma_stands_index(s, k0 + ql + 2 + n0, tail_text);
    lemma_stands_index(s, k0, qk);
    assert(qk[0] == '"');
    assert(s[k0] == '"');
    // the key
    lemma_skip_ws_to(s, k, k0);
    assert(qk =~= seq!['"'] + (escape(key) + seq!['"']));
    lemma_stands_split(s, k0, seq!['"'], escape(key) + seq!['"']);
    lemma_read_string_body(s, k0 + 1, Seq::empty(), key);
    assert(Seq::<char>::empty() + key =~= key);
    assert(string_lit(s, k0) == Ok::<(Seq<char>, int), Seq<char>>((key, k0 + ql)));
    // the colon
    assert(s[k0 + ql] == ':');
    lemma_skip_ws_to(s, k0 + ql, k0 + ql);
    // the value
    assert(s[k0 + ql + 1] == ' ');
    assert forall|p: int| k0 + ql + 1 <= p < k0 + ql + 2 implies is_white_space(#[trigger] s[p]) by {
        assert(p == k0 + ql + 1);
    }
    assert(tail_text[0] == '}' || tail_text[0] == ',');
    lemma_read_value(s, k0 + ql + 1, k0 + ql + 2, v0);
    let e2 = k0 + ql + 2 + n0;
    lemma_skip_ws_to(s, e2, e2);
    // the insertion adds a new entry
    assert(!has_key(acc, key)) by {
        if has_key(acc, key) {
            let i = choose|i: int| 0 <= i < acc.len() && acc[i].0 == key;
            assert((acc + entries)[i].0 == (acc + entries)[acc.len() as int].0);
        }
    }
    lemma_key_index(acc, key);
    assert(dict_insert(acc, key, v0) == acc.push((key, v0)));
    if entries.len() == 1 {
        assert(s[e2] == '}');
        assert(acc.push((key, v0)) =~= acc + entries);
        assert(entries_json(entries) == entry_json(key, v0));
    } else {
        let rest = entries.subrange(1, entries.len() as int);
        let xr = entries_json(rest);
        assert(s[e2] == ',');
        assert(s[e2 + 1] == ' ');
        lemma_stands_split(s, e2, seq![',', ' '], xr + seq!['}']);
        assert forall|i: int| 0 <= i < rest.len() implies json_data(#[trigger] rest[i].1) by {
            assert(rest[i] == entries[i + 1]);
        }
        assert(acc.push((key, v0)) + rest =~= acc + entries);
        assert forall|p: int| e2 + 1 <= p < e2 + 2 implies is_white_space(#[trigger] s[p]) by {
            assert(p == e2 + 1);
        }
        lemma_read_entries(s, e2 + 1, e2 + 2, acc.push((key, v0)), rest);
        assert(entries_json(entries) == entry_json(key, v0) + seq![',', ' '] + xr);
    }
}

/// Reading JSON gives back what writing JSON wrote: for every value that
/// JSON carries (see `json_data`), decoding its JSON text yields the value.
pub proof fn law_decode_encode(v: SpecValue)
    requires
        json_data(v),
    ensures
        decode(to_json(v)) == Ok::<SpecValue, Seq<char>>(v),
{
    let x = to_json(v);
    lemma_json_ends(v);
    lemma_skip_ws_to(x, 0, 0);
    assert(back_ws(x, x.len() as int) == x.len());
    assert(trimmed(x) =~= x);
    assert(x.subrange(0, x.len() as int) =~= x);
    lemma_read_value(x, 0, 0, v);
}


/// Decoding reads the first value of the text and ignores what follows it,
/// when what follows does not begin with a character that a number holds.
pub proof fn law_decode_ignores_rest(v: SpecValue, rest: Seq<char>)
    requires
        json_data(v),
        rest.len() == 0 || !number_char(rest[0]),
    ensures
        decode(to_json(v) + rest) == Ok::<SpecValue, Seq<char>>(v),
{
    let x = to_json(v);
    let u = x + rest;
    let n = x.len() as int;
    lemma_json_ends(v);
    assert(u[0] == x[0]);
    assert(u[n - 1] == x[n - 1]);
    lemma_skip_ws_to(u, 0, 0);
    lemma_back_ws(u, u.len() as int);
    let b = back_ws(u, u.len() as int);
    assert(b >= n) by {
        if b < n {
            assert(is_white_space(u[n - 1]));
        }
    }
    let t = trimmed(u);
    assert(t == u.subrange(0, b));
    assert(t.subrange(0, n) =~= x);
    if b > n {
        assert(t[n] == rest[0]);
    }
    lemma_read_value(t, 0, 0, v);
}

/// White space before and after a JSON text does not change what decoding
/// it gives.
pub proof fn law_decode_surrounding_white_space(a: Seq<char>, t: Seq<char>, b: Seq<char>)
    requires
        forall|p: int| 0 <= p < a.len() ==> is_white_space(#[trigger] a[p]),
        forall|p: int| 0 <= p < b.len() ==> is_white_space(#[trigger] b[p]),
    ensures
        decode(a + t + b) == decode(t),
{
    law_trim_surrounding(a, t, b);
}


/// The items' JSON texts joined with ", ".
proof fn lemma_items_json_join(items: Seq<SpecValue>)
    ensures
        items_json(items) == join(Seq::new(items.len(), |i: int| to_json(items[i])), seq![',', ' ']),
    decreases items.len(),
{
    let parts = Seq::new(items.len(), |i: int| to_json(items[i]));
    if items.len() >= 2 {
        let rest = items.subrange(1, items.len() as int);
        lemma_items_json_join(rest);
        assert(parts.subrange(1, parts.len() as int) =~= Seq::new(rest.len(), |i: int| to_json(rest[i])));
    }
}

/// The entries' JSON texts joined with ", ".
proof fn lemma_entries_json_join(entries: Seq<(Seq<char>, SpecValue)>)
    ensures
        entries_json(entries) == join(
            Seq::new(entries.len(), |i: int| entry_json(entries[i].0, entries[i].1)),
            seq![',', ' '],
        ),
    decreases entries.len(),
{
    let parts = Seq::new(entries.len(), |i: int| entry_json(entries[i].0, entries[i].1));
    if entries.len() >= 2 {
        let rest = entries.subrange(1, entries.len() as int);
        lemma_entries_json_join(rest);
        assert(parts.subrange(1, parts.len() as int) =~= Seq::new(
            rest.len(),
            |i: int| entry_json(rest[i].0, rest[i].1),
        ));
    }
}

/// The JSON text of a list is its items' JSON texts joined with ", "
/// between brackets; that of a dictionary is its entries' texts (the key
/// escaped and quoted, ": ", the value's text) joined with ", " between
/// braces.
pub proof fn law_json_shapes(items: Seq<SpecValue>, entries: Seq<(Seq<char>, SpecValue)>)
    ensures
        to_json(SpecValue::List(items)) == seq!['['] + join(
            Seq::new(items.len(), |i: int| to_json(items[i])),
            seq![',', ' '],
        ) + seq![']'],
        to_json(SpecValue::Dict(entries)) == seq!['{'] + join(
            Seq::new(entries.len(), |i: int| entry_json(entries[i].0, entries[i].1)),
            seq![',', ' '],
        ) + seq!['}'],
        forall|k: Seq<char>, v: SpecValue| #[trigger] entry_json(k, v) == quoted(escape(k)) + seq![':', ' '] + to_json(v),
{
    lemma_items_json_join(items);
    lemma_entries_json_join(entries);
}

/// The JSON text of a boolean is `true` or `false`, that of null is `null`,
/// that of a string is the string escaped between quotes, and that of a
/// number is its text as it stands.
pub proof fn law_json_scalars(b: bool, t: Seq<char>)
    ensures
        to_json(SpecValue::Boolean(b)) == (if b {
            "true"@
        } else {
            "false"@
        }),
        to_json(SpecValue::Null) == "null"@,
        to_json(SpecValue::String(t)) == seq!['"'] + escape(t) + seq!['"'],
        to_json(SpecValue::Number(t)) == t,
{
    reveal_strlit("true");
    reveal_strlit("false");
    reveal_strlit("null");
    assert(seq!['t', 'r', 'u', 'e'] =~= "true"@);
    assert(seq!['f', 'a', 'l', 's', 'e'] =~= "false"@);
    assert(seq!['n', 'u', 'l', 'l'] =~= "null"@);
}

/// Reading a value skips the white space at the start of the text and goes
/// by the first character after it: none left is the end-of-input error, a
/// quote a string, a brace an object, a bracket an array, `t` or `f` a
/// boolean, `n` null, a minus sign or a digit a number, and any other
/// character the error that names it.
pub proof fn law_value_dispatch(s: Seq<char>)
    ensures
        0 <= skip_ws(s, 0) <= s.len(),
        forall|k: int| 0 <= k < skip_ws(s, 0) ==> is_white_space(#[trigger] s[k]),
        skip_ws(s, 0) == s.len() ==> parse_value(s, 0) == Err::<(SpecValue, int), Seq<char>>(msg_end()),
        skip_ws(s, 0) < s.len() ==> {
            let j = skip_ws(s, 0);
            let c = s[j];
            &&& !is_white_space(c)
            &&& c == '"' ==> parse_value(s, 0) == match string_lit(s, j) {
                Ok((t, e)) => Ok::<(SpecValue, int), Seq<char>>((SpecValue::String(t), e)),
                Err(m) => Err(m),
            }
            &&& c == '{' ==> parse_value(s, 0) == parse_object(s, j)
            &&& c == '[' ==> parse_value(s, 0) == parse_array(s, j)
            &&& (c == 't' || c == 'f') ==> parse_value(s, 0) == parse_bool(s, j)
            &&& c == 'n' ==> parse_value(s, 0) == parse_null(s, j)
            &&& (c == '-' || is_digit(c)) ==> parse_value(s, 0) == parse_number(s, j)
            &&& !(c == '"' || c == '{' || c == '[' || c == 't' || c == 'f' || c == 'n' || c == '-'
                || is_digit(c)) ==> parse_value(s, 0) == Err::<(SpecValue, int), Seq<char>>(
                msg_unexpected(c),
            )
        },
{
    lemma_skip_ws(s, 0);
}

/// Escaping a text escapes each of its characters on its own.
proof fn lemma_escape_concat(a: Seq<char>, b: Seq<char>)
    ensures
        escape(a + b) == escape(a) + escape(b),
    decreases a.len(),
{
    if a.len() == 0 {
        assert(a + b =~= b);
        assert(escape(a) + escape(b) =~= escape(b));
    } else {
        assert((a + b).drop_first() =~= a.drop_first() + b);
        lemma_escape_concat(a.drop_first(), b);
        assert(escape(a + b) =~= escape(a) + escape(b));
    }
}

/// A text with neither a backslash nor a double quote is its own escape.
proof fn lemma_escape_plain(a: Seq<char>)
    requires
        forall|i: int| 0 <= i < a.len() ==> #[trigger] a[i] != '\\' && a[i] != '"',
    ensures
        escape(a) == a,
    decreases a.len(),
{
    if a.len() > 0 {
        let t = a.drop_first();
        assert forall|i: int| 0 <= i < t.len() implies #[trigger] t[i] != '\\' && t[i] != '"' by {
            assert(t[i] == a[i + 1]);
        }
        lemma_escape_plain(t);
        assert(escape(a) =~= seq![a[0]] + t);
        assert(seq![a[0]] + t =~= a);
    }
}

/// The JSON text of a string escapes exactly the backslashes and the double
/// quotes, each by a backslash before it, one character at a time: a string
/// with neither is written as it is between double quotes.
pub proof fn law_string_json(a: Seq<char>, b: Seq<char>)
    ensures
        escape(a + b) == escape(a) + escape(b),
        escape(seq!['\\']) == seq!['\\', '\\'],
        escape(seq!['"']) == seq!['\\', '"'],
        (forall|i: int| 0 <= i < a.len() ==> #[trigger] a[i] != '\\' && a[i] != '"') ==> {
            &&& escape(a) == a
            &&& to_json(SpecValue::String(a)) == seq!['"'] + a + seq!['"']
        },
        to_json(SpecValue::String(a + b)) == seq!['"'] + escape(a) + escape(b) + seq!['"'],
{
    lemma_escape_concat(a, b);
    let e = Seq::<char>::empty();
    assert(escape(e) == e);
    assert(seq!['\\'].drop_first() =~= e);
    assert(seq!['\\'][0] == '\\');
    assert(escape(seq!['\\']) == escape_char('\\') + escape(e));
    assert(escape(seq!['\\']) =~= seq!['\\', '\\']);
    assert(seq!['"'].drop_first() =~= e);
    assert(seq!['"'][0] == '"');
    assert(escape(seq!['"']) == escape_char('"') + escape(e));
    assert(escape(seq!['"']) =~= seq!['\\', '"']);
    if forall|i: int| 0 <= i < a.len() ==> #[trigger] a[i] != '\\' && a[i] != '"' {
        lemma_escape_plain(a);
    }
    assert(seq!['"'] + (escape(a) + escape(b)) + seq!['"'] =~= seq!['"'] + escape(a) + escape(b)
        + seq!['"']);
}

/// Every character of `t` is a decimal digit.
pub open spec fn all_digits(t: Seq<char>) -> bool {
    forall|k: int| 0 <= k < t.len() ==> is_digit(#[trigger] t[k])
}

/// The text of a number put together from its parts: a minus sign if `neg`,
/// the integer digits, a dot and the fraction digits if `has_dot`, and, if
/// `has_exp`, the exponent letter, its sign (empty or one character) and
/// its digits.
pub open spec fn number_literal(
    neg: bool,
    int_part: Seq<char>,
    has_dot: bool,
    frac: Seq<char>,
    has_exp: bool,
    e: char,
    sign: Seq<char>,
    exp_digits: Seq<char>,
) -> Seq<char> {
    (if neg {
        seq!['-']
    } else {
        Seq::empty()
    }) + int_part + (if has_dot {
        seq!['.'] + frac
    } else {
        Seq::empty()
    }) + (if has_exp {
        seq![e] + sign + exp_digits
    } else {
        Seq::empty()
    })
}

/// A run of digits followed by the end or by something else is scanned to
/// its end.
proof fn lemma_scan_digits_to(s: Seq<char>, a: int, b: int)
    requires
        0 <= a <= b <= s.len(),
        forall|k: int| a <= k < b ==> is_digit(#[trigger] s[k]),
        b == s.len() || !is_digit(s[b]),
    ensures
        scan_digits(s, a) == b,
    decreases b - a,
{
    if a < b {
        lemma_scan_digits_to(s, a + 1, b);
    }
}

/// A run of digits and dots followed by the end or by something else is
/// scanned to its end.
proof fn lemma_scan_mantissa_to(s: Seq<char>, a: int, b: int)
    requires
        0 <= a <= b <= s.len(),
        forall|k: int| a <= k < b ==> is_digit(#[trigger] s[k]) || s[k] == '.',
        b == s.len() || !(is_digit(s[b]) || s[b] == '.'),
    ensures
        scan_mantissa(s, a) == b,
    decreases b - a,
{
    if a < b {
        lemma_scan_mantissa_to(s, a + 1, b);
    }
}

/// Every number written as an optional minus sign, digits, optionally a dot
/// and more digits, and optionally `e` or `E` with an optional `+` or `-`
/// sign and at least one digit, is a number of std's float grammar, read
/// whole, and decoding it gives the number with that text.
pub proof fn law_number_literal(
    neg: bool,
    int_part: Seq<char>,
    has_dot: bool,
    frac: Seq<char>,
    has_exp: bool,
    e: char,
    sign: Seq<char>,
    exp_digits: Seq<char>,
)
    requires
        all_digits(int_part),
        all_digits(frac),
        all_digits(exp_digits),
        int_part.len() > 0 || (neg && has_dot && frac.len() > 0),
        has_exp ==> {
            &&& e == 'e' || e == 'E'
            &&& sign.len() <= 1
            &&& sign.len() == 1 ==> sign[0] == '+' || sign[0] == '-'
            &&& exp_digits.len() > 0
        },
    ensures
        float_syntax(number_literal(neg, int_part, has_dot, frac, has_exp, e, sign, exp_digits)),
        number_text(number_literal(neg, int_part, has_dot, frac, has_exp, e, sign, exp_digits)),
        decode(number_literal(neg, int_part, has_dot, frac, has_exp, e, sign, exp_digits))
            == Ok::<SpecValue, Seq<char>>(
            SpecValue::Number(number_literal(neg, int_part, has_dot, frac, has_exp, e, sign, exp_digits)),
        ),
{
    let t = number_literal(neg, int_part, has_dot, frac, has_exp, e, sign, exp_digits);
    let sg: Seq<char> = if neg {
        seq!['-']
    } else {
        Seq::empty()
    };
    let dp: Seq<char> = if has_dot {
        seq!['.'] + frac
    } else {
        Seq::empty()
    };
    let xp: Seq<char> = if has_exp {
        seq![e] + sign + exp_digits
    } else {
        Seq::empty()
    };
    let a = sg.len() as int;
    let p = a + int_part.len();
    let r = p + dp.len();
    let sl = sign.len() as int;
    let n = t.len() as int;
    assert(t == sg + int_part + dp + xp);
    assert(n == r + xp.len());
    assert forall|k: int| a <= k < p implies is_digit(#[trigger] t[k]) by {
        assert(t[k] == int_part[k - a]);
    }
    if has_dot {
        assert(t[p] == '.');
        assert forall|k: int| p + 1 <= k < r implies is_digit(#[trigger] t[k]) by {
            assert(t[k] == frac[k - p - 1]);
        }
    }
    if has_exp {
        assert(t[r] == e);
        if sl == 1 {
            assert(t[r + 1] == sign[0]);
        }
        assert forall|k: int| r + 1 + sl <= k < n implies is_digit(#[trigger] t[k]) by {
            assert(t[k] == exp_digits[k - r - 1 - sl]);
        }
        assert(is_digit(t[r + 1 + sl]));
    }
    if neg {
        assert(t[0] == '-');
    } else {
        assert(t[0] == int_part[0]);
    }
    lemma_scan_digits_to(t, a, p);
    if has_dot {
        lemma_scan_digits_to(t, p + 1, r);
    }
    lemma_scan_mantissa_to(t, a, r);
    if has_exp {
        lemma_scan_digits_to(t, r + 1 + sl, n);
    }
    assert(float_syntax(t));
    assert(number_end(t, 0) == n);
    assert(number_text(t));
    law_decode_encode(SpecValue::Number(t));
}

} // verus!
