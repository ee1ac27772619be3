//! JSON text: rendering a value as JSON and reading a value back from JSON.

use vstd::prelude::*;
use crate::text::{append_str, push_char};
use crate::value::{entries_view, lemma_entries_view, well_keyed, Entry, SpecValue, Value};

verus! {

broadcast use vstd::string::group_string_axioms;

/// The characters that stand for `c` inside a JSON string: a backslash and a
/// double quote get a backslash before them.
pub open spec fn escape_char(c: char) -> Seq<char> {
    if c == '\\' || c == '"' {
        seq!['\\', c]
    } else {
        seq![c]
    }
}

/// `t` with each backslash and each double quote preceded by a backslash.
pub open spec fn escape(t: Seq<char>) -> Seq<char>
    decreases t.len(),
{
    if t.len() == 0 {
        Seq::empty()
    } else {
        escape_char(t[0]) + escape(t.drop_first())
    }
}

/// `t` between double quotes.
pub open spec fn quoted(t: Seq<char>) -> Seq<char> {
    seq!['"'] + t + seq!['"']
}

/// The JSON text of a value: numbers as their text, strings quoted with
/// backslashes before backslashes and quotes, lists in brackets and
/// dictionaries in braces with ", " between elements, keys escaped and
/// quoted as strings are, functions and classes as quoted descriptions, and
/// instances as objects whose first entry is "__class__".
pub open spec fn to_json(v: SpecValue) -> Seq<char>
    decreases v, 1int,
{
    match v {
        SpecValue::Number(t) => t,
        SpecValue::String(t) => quoted(escape(t)),
        SpecValue::Boolean(b) => if b {
            seq!['t', 'r', 'u', 'e']
        } else {
            seq!['f', 'a', 'l', 's', 'e']
        },
        SpecValue::Null => seq!['n', 'u', 'l', 'l'],
        SpecValue::List(items) => seq!['['] + items_json(items) + seq![']'],
        SpecValue::Dict(entries) => seq!['{'] + entries_json(entries) + seq!['}'],
        SpecValue::Function(name) => quoted("<function "@ + escape(name) + ">"@),
        SpecValue::NativeFunction(name) => quoted("<native "@ + escape(name) + ">"@),
        SpecValue::Class(name) => quoted("<class "@ + escape(name) + ">"@),
        SpecValue::Instance(class_name, fields) => if fields.len() == 0 {
            "{\"__class__\": \""@ + escape(class_name) + "\"}"@
        } else {
            "{\"__class__\": \""@ + escape(class_name) + "\", "@ + entries_json(fields) + "}"@
        },
    }
}

/// The JSON texts of the items with ", " between each two of them.
pub open spec fn items_json(items: Seq<SpecValue>) -> Seq<char>
    decreases items, 0int,
{
    if items.len() == 0 {
        Seq::empty()
    } else if items.len() == 1 {
        to_json(items[0])
    } else {
        to_json(items[0]) + seq![',', ' '] + items_json(items.subrange(1, items.len() as int))
    }
}

/// The JSON text of one dictionary entry: the key escaped and quoted, ": ",
/// the value.
pub open spec fn entry_json(key: Seq<char>, v: SpecValue) -> Seq<char>
    decreases v, 2int,
{
    quoted(escape(key)) + seq![':', ' '] + to_json(v)
}

/// The JSON texts of the entries with ", " between each two of them.
pub open spec fn entries_json(entries: Seq<(Seq<char>, SpecValue)>) -> Seq<char>
    decreases entries, 0int,
{
    if entries.len() == 0 {
        Seq::empty()
    } else if entries.len() == 1 {
        entry_json(entries[0].0, entries[0].1)
    } else {
        entry_json(entries[0].0, entries[0].1) + seq![',', ' '] + entries_json(
            entries.subrange(1, entries.len() as int),
        )
    }
}


/// Escaping one more character appends its escaped form.
proof fn lemma_escape_push(t: Seq<char>, c: char)
    ensures
        escape(t.push(c)) == escape(t) + escape_char(c),
    decreases t.len(),
{
    if t.len() == 0 {
        assert(t.push(c).drop_first() =~= Seq::<char>::empty());
        assert(escape(Seq::<char>::empty()) == Seq::<char>::empty());
        assert(escape(t.push(c)) == escape_char(c) + escape(t.push(c).drop_first()));
        assert(escape(t.push(c)) =~= escape_char(c));
    } else {
        assert(t.push(c).drop_first() =~= t.drop_first().push(c));
        lemma_escape_push(t.drop_first(), c);
        assert(escape(t.push(c)) =~= escape(t) + escape_char(c));
    }
}

/// One more item appends ", " and its JSON text.
proof fn lemma_items_json_push(xs: Seq<SpecValue>, x: SpecValue)
    requires
        xs.len() >= 1,
    ensures
        items_json(xs.push(x)) == items_json(xs) + seq![',', ' '] + to_json(x),
    decreases xs.len(),
{
    if xs.len() == 1 {
        assert(xs.push(x).subrange(1, 2) =~= seq![x]);
        assert(items_json(seq![x]) == to_json(x));
        assert(items_json(xs.push(x)) =~= items_json(xs) + seq![',', ' '] + to_json(x));
    } else {
        let tail = xs.subrange(1, xs.len() as int);
        assert(xs.push(x).subrange(1, xs.len() + 1int) =~= tail.push(x));
        lemma_items_json_push(tail, x);
        assert(items_json(xs.push(x)) =~= items_json(xs) + seq![',', ' '] + to_json(x));
    }
}

/// One more entry appends ", " and its JSON text.
proof fn lemma_entries_json_push(xs: Seq<(Seq<char>, SpecValue)>, x: (Seq<char>, SpecValue))
    requires
        xs.len() >= 1,
    ensures
        entries_json(xs.push(x)) == entries_json(xs) + seq![',', ' '] + entry_json(x.0, x.1),
    decreases xs.len(),
{
    if xs.len() == 1 {
        assert(xs.push(x).subrange(1, 2) =~= seq![x]);
        assert(entries_json(seq![x]) == entry_json(x.0, x.1));
        assert(entries_json(xs.push(x)) =~= entries_json(xs) + seq![',', ' '] + entry_json(
            x.0,
            x.1,
        ));
    } else {
        let tail = xs.subrange(1, xs.len() as int);
        assert(xs.push(x).subrange(1, xs.len() + 1int) =~= tail.push(x));
        lemma_entries_json_push(tail, x);
        assert(entries_json(xs.push(x)) =~= entries_json(xs) + seq![',', ' '] + entry_json(
            x.0,
            x.1,
        ));
    }
}

/// Appends the escaped characters of `t`.
fn write_escaped(out: &mut String, t: &String)
    ensures
        final(out)@ == old(out)@ + escape(t@),
{
    let v = crate::text::chars_of(t.as_str());
    let n = v.len();
    let ghost o0 = out@;
    for i in 0..n
        invariant
            n == v@.len(),
            v@ == t@,
            out@ == o0 + escape(v@.take(i as int)),
    {
        let c = v[i];
        proof {
            lemma_escape_push(v@.take(i as int), c);
            assert(v@.take(i + 1) =~= v@.take(i as int).push(c));
        }
        if c == '\\' || c == '"' {
            push_char(out, '\\');
        }
        push_char(out, c);
        assert(out@ =~= o0 + escape(v@.take(i + 1)));
    }
    assert(v@.take(n as int) =~= v@);
}

/// Appends `t` escaped and between double quotes.
fn write_quoted(out: &mut String, t: &String)
    ensures
        final(out)@ == old(out)@ + quoted(escape(t@)),
{
    push_char(out, '"');
    write_escaped(out, t);
    push_char(out, '"');
    assert(out@ =~= old(out)@ + quoted(escape(t@)));
}

/// Appends the JSON text of the items.
fn write_items(out: &mut String, items: &Vec<Value>)
    ensures
        final(out)@ == old(out)@ + items_json(
            Seq::new(items@.len(), |i: int| if 0 <= i < items@.len() { items@[i]@ } else { SpecValue::Null }),
        ),
    decreases items,
{
    let ghost sv = Seq::new(items@.len(), |i: int| if 0 <= i < items@.len() { items@[i]@ } else { SpecValue::Null });
    let ghost o0 = out@;
    let n = items.len();
    for i in 0..n
        invariant
            n == items@.len(),
            sv == Seq::new(items@.len(), |i: int| if 0 <= i < items@.len() { items@[i]@ } else { SpecValue::Null }),
            out@ == o0 + items_json(sv.take(i as int)),
    {
        let ghost before = out@;
        assert(sv.take(i + 1) =~= sv.take(i as int).push(sv[i as int]));
        if i > 0 {
            push_char(out, ',');
            push_char(out, ' ');
            proof {
                lemma_items_json_push(sv.take(i as int), sv[i as int]);
            }
        } else {
            assert(items_json(sv.take(1)) == to_json(sv[0]));
        }
        write_json(out, &items[i]);
        assert(out@ =~= o0 + items_json(sv.take(i + 1)));
    }
    assert(sv.take(n as int) =~= sv);
}

/// Appends the JSON text of the entries.
fn write_entries(out: &mut String, entries: &Vec<Entry>)
    ensures
        final(out)@ == old(out)@ + entries_json(entries_view(entries@)),
    decreases entries,
{
    let ghost sv = entries_view(entries@);
    proof {
        lemma_entries_view(entries@);
    }
    let ghost o0 = out@;
    let n = entries.len();
    for i in 0..n
        invariant
            n == entries@.len(),
            sv == entries_view(entries@),
            sv.len() == n,
            forall|j: int| 0 <= j < n ==> #[trigger] sv[j] == (entries@[j].key@, entries@[j].value@),
            out@ == o0 + entries_json(sv.take(i as int)),
    {
        assert(sv.take(i + 1) =~= sv.take(i as int).push(sv[i as int]));
        if i > 0 {
            push_char(out, ',');
            push_char(out, ' ');
            proof {
                lemma_entries_json_push(sv.take(i as int), sv[i as int]);
            }
        } else {
            assert(entries_json(sv.take(1)) == entry_json(sv[0].0, sv[0].1));
        }
        write_quoted(out, &entries[i].key);
        push_char(out, ':');
        push_char(out, ' ');
        write_json(out, &entries[i].value);
        assert(out@ =~= o0 + entries_json(sv.take(i + 1)));
    }
    assert(sv.take(n as int) =~= sv);
}

/// Appends the JSON text of `v`.
fn write_json(out: &mut String, v: &Value)
    ensures
        final(out)@ == old(out)@ + to_json(v@),
    decreases v,
{
    let ghost o0 = out@;
    match v {
        Value::Number(t) => {
            append_str(out, t.as_str());
        },
        Value::String(t) => {
            push_char(out, '"');
            write_escaped(out, t);
            push_char(out, '"');
            assert(out@ =~= o0 + to_json(v@));
        },
        Value::Boolean(b) => {
            if *b {
                append_str(out, "true");
                proof {
                    reveal_strlit("true");
                }
                assert(out@ =~= o0 + to_json(v@));
            } else {
                append_str(out, "false");
                proof {
                    reveal_strlit("false");
                }
                assert(out@ =~= o0 + to_json(v@));
            }
        },
        Value::Null => {
            append_str(out, "null");
            proof {
                reveal_strlit("null");
            }
            assert(out@ =~= o0 + to_json(v@));
        },
        Value::List(items) => {
            let ghost sv = Seq::new(items@.len(), |i: int| if 0 <= i < items@.len() { items@[i]@ } else { SpecValue::Null });
            assert(sv =~= Seq::new(items.len() as nat, |i: int| if 0 <= i < items.len() { items[i]@ } else { SpecValue::Null }));
            assert(v@->List_0 =~= sv);
            assert(v@ == SpecValue::List(sv));
            push_char(out, '[');
            write_items(out, items);
            push_char(out, ']');
            assert(to_json(v@) == seq!['['] + items_json(sv) + seq![']']);
            assert(out@ =~= o0 + to_json(v@));
        },
        Value::Dict(entries) => {
            push_char(out, '{');
            write_entries(out, entries);
            push_char(out, '}');
            assert(out@ =~= o0 + to_json(v@));
        },
        Value::Function { name } => {
            push_char(out, '"');
            append_str(out, "<function ");
            write_escaped(out, name);
            append_str(out, ">");
            push_char(out, '"');
            assert(out@ =~= o0 + to_json(v@));
        },
        Value::NativeFunction { name } => {
            push_char(out, '"');
            append_str(out, "<native ");
            write_escaped(out, name);
            append_str(out, ">");
            push_char(out, '"');
            assert(out@ =~= o0 + to_json(v@));
        },
        Value::Class { name } => {
            push_char(out, '"');
            append_str(out, "<class ");
            write_escaped(out, name);
            append_str(out, ">");
            push_char(out, '"');
            assert(out@ =~= o0 + to_json(v@));
        },
        Value::Instance { class_name, fields } => {
            append_str(out, "{\"__class__\": \"");
            write_escaped(out, class_name);
            proof {
                lemma_entries_view(fields@);
            }
            if fields.len() == 0 {
                append_str(out, "\"}");
                assert(out@ =~= o0 + to_json(v@));
                return;
            }
            append_str(out, "\", ");
            write_entries(out, fields);
            append_str(out, "}");
            assert(out@ =~= o0 + to_json(v@));
        },
    }
}

/// `value_to_json` (and `json_encode`): the JSON text of a value whose
/// dictionaries have distinct keys, as the language's maps do.
pub fn value_to_json(v: &Value) -> (r: String)
    requires
        well_keyed(v@),
    ensures
        r@ == to_json(v@),
{
    let mut out = String::new();
    write_json(&mut out, v);
    assert(out@ =~= to_json(v@));
    out
}


/// `json_encode`: the JSON text of a value whose dictionaries have distinct
/// keys, as a string value.
pub fn json_encode(v: &Value) -> (r: Value)
    requires
        well_keyed(v@),
    ensures
        r@ == SpecValue::String(to_json(v@)),
{
    Value::String(value_to_json(v))
}

} // verus!
