//! The JSON encoder: string escaping and the text of a [`JsonValue`].
//!
//! Control characters and every non-ASCII character are written as `\uXXXX`
//! escapes (a surrogate pair above the basic plane), so the text is ASCII.
use vstd::prelude::*;
use vstd::string::*;
use crate::json_parse::{JsonModel, JsonValue, model_of, models_of, entry_models};
use crate::text::{chars_of, push_char, hex_char, hex_digits, int_text, push_int};

verus! {

broadcast use vstd::seq::group_seq_axioms, vstd::std_specs::vec::group_vec_axioms;

/// `\u` and the four lower-case hex digits of a UTF-16 code unit.
pub open spec fn unicode_escape(n: int) -> Seq<char> {
    "\\u"@ + seq![
        hex_digits()[(n / 4096) % 16],
        hex_digits()[(n / 256) % 16],
        hex_digits()[(n / 16) % 16],
        hex_digits()[n % 16],
    ]
}

/// How one character is written inside a JSON string literal.
pub open spec fn escape_char(c: char) -> Seq<char> {
    let n = c as u32 as int;
    if c == '"' {
        "\\\""@
    } else if c == '\\' {
        "\\\\"@
    } else if c == '\n' {
        "\\n"@
    } else if c == '\r' {
        "\\r"@
    } else if c == '\t' {
        "\\t"@
    } else if c == '\x08' {
        "\\b"@
    } else if c == '\x0C' {
        "\\f"@
    } else if n < 0x20 {
        unicode_escape(n)
    } else if n < 0x80 {
        seq![c]
    } else if n < 0x10000 {
        unicode_escape(n)
    } else {
        unicode_escape(0xD800 + (n - 0x10000) / 1024) + unicode_escape(0xDC00 + (n - 0x10000) % 1024)
    }
}

/// The escaped form of a whole string, character by character.
pub open spec fn escaped(s: Seq<char>) -> Seq<char>
    decreases s.len(),
{
    if s.len() == 0 {
        seq![]
    } else {
        escaped(s.drop_last()) + escape_char(s.last())
    }
}

/// A JSON string literal.
pub open spec fn quoted(s: Seq<char>) -> Seq<char> {
    seq!['"'] + escaped(s) + seq!['"']
}

/// The compact JSON text of a value: no white space, object entries in the
/// order they are held.
pub open spec fn json_text(m: JsonModel) -> Seq<char>
    decreases m,
{
    match m {
        JsonModel::Null => "null"@,
        JsonModel::Bool(b) => if b {
            "true"@
        } else {
            "false"@
        },
        JsonModel::Number(n) => int_text(n),
        JsonModel::Str(s) => quoted(s),
        JsonModel::Array(items) => seq!['['] + items_text(items) + seq![']'],
        JsonModel::Object(entries) => seq!['{'] + entries_text(entries) + seq!['}'],
    }
}

/// Array elements, separated by commas.
pub open spec fn items_text(s: Seq<JsonModel>) -> Seq<char>
    decreases s,
{
    if s.len() == 0 {
        seq![]
    } else if s.len() == 1 {
        json_text(s[0])
    } else {
        items_text(s.subrange(0, s.len() - 1)) + seq![','] + json_text(s[s.len() - 1])
    }
}

/// Object entries `"key":value`, separated by commas.
pub open spec fn entries_text(s: Seq<(Seq<char>, JsonModel)>) -> Seq<char>
    decreases s,
{
    if s.len() == 0 {
        seq![]
    } else if s.len() == 1 {
        quoted(s[0].0) + seq![':'] + json_text(s[0].1)
    } else {
        entries_text(s.subrange(0, s.len() - 1)) + seq![','] + quoted(s[s.len() - 1].0) + seq![':']
            + json_text(s[s.len() - 1].1)
    }
}

fn push_unicode_escape(out: &mut String, n: u32)
    requires
        n < 0x10000,
    ensures
        final(out)@ == old(out)@ + unicode_escape(n as int),
{
    out.append("\\u");
    push_char(out, hex_char((n / 4096) % 16));
    push_char(out, hex_char((n / 256) % 16));
    push_char(out, hex_char((n / 16) % 16));
    push_char(out, hex_char(n % 16));
    assert(final(out)@ =~= old(out)@ + unicode_escape(n as int));
}

fn push_escaped_char(out: &mut String, c: char)
    ensures
        final(out)@ == old(out)@ + escape_char(c),
{
    let n = c as u32;
    if c == '"' {
        out.append("\\\"");
    } else if c == '\\' {
        out.append("\\\\");
    } else if c == '\n' {
        out.append("\\n");
    } else if c == '\r' {
        out.append("\\r");
    } else if c == '\t' {
        out.append("\\t");
    } else if c == '\x08' {
        out.append("\\b");
    } else if c == '\x0C' {
        out.append("\\f");
    } else if n < 0x20 {
        push_unicode_escape(out, n);
    } else if n < 0x80 {
        push_char(out, c);
    } else if n < 0x10000 {
        push_unicode_escape(out, n);
    } else {
        let v = n - 0x10000;
        push_unicode_escape(out, 0xD800 + v / 1024);
        push_unicode_escape(out, 0xDC00 + v % 1024);
        assert(final(out)@ =~= old(out)@ + escape_char(c));
    }
}

/// Appends `value` escaped for a JSON string literal, without the quotes.
pub fn escape_json_string(out: &mut String, value: &str)
    ensures
        final(out)@ == old(out)@ + escaped(value@),
{
    let chars = chars_of(value);
    let ghost start = out@;
    let mut i: usize = 0;
    while i < chars.len()
        invariant
            chars@ == value@,
            i <= chars.len(),
            out@ == start + escaped(chars@.subrange(0, i as int)),
        decreases chars.len() - i,
    {
        push_escaped_char(out, chars[i]);
        proof {
            let p = chars@.subrange(0, i + 1);
            assert(p.drop_last() =~= chars@.subrange(0, i as int));
        }
        i += 1;
    }
    assert(chars@.subrange(0, i as int) =~= value@);
}

/// Appends `value` as a JSON string literal.
pub fn push_json_string(out: &mut String, value: &str)
    ensures
        final(out)@ == old(out)@ + quoted(value@),
{
    push_char(out, '"');
    escape_json_string(out, value);
    push_char(out, '"');
    assert(final(out)@ =~= old(out)@ + quoted(value@));
}

proof fn lemma_models_step(s: Seq<JsonValue>, i: int)
    requires
        0 <= i < s.len(),
    ensures
        models_of(s.subrange(0, i + 1)) == models_of(s.subrange(0, i)).push(model_of(s[i])),
        models_of(s.subrange(0, i + 1)).len() == i + 1,
    decreases i,
{
    let p = s.subrange(0, i + 1);
    assert(p.subrange(0, i) =~= s.subrange(0, i));
    if i > 0 {
        lemma_models_step(s, i - 1);
    }
}

proof fn lemma_entries_step(s: Seq<(String, JsonValue)>, i: int)
    requires
        0 <= i < s.len(),
    ensures
        entry_models(s.subrange(0, i + 1)) == entry_models(s.subrange(0, i)).push(
            (s[i].0@, model_of(s[i].1)),
        ),
        entry_models(s.subrange(0, i + 1)).len() == i + 1,
    decreases i,
{
    let p = s.subrange(0, i + 1);
    assert(p.subrange(0, i) =~= s.subrange(0, i));
    if i > 0 {
        lemma_entries_step(s, i - 1);
    }
}

/// Appends the JSON text of `value`.
pub fn write_json_value(out: &mut String, value: &JsonValue)
    ensures
        final(out)@ == old(out)@ + json_text(value@),
    decreases value, 1nat,
{
    match value {
        JsonValue::Null => out.append("null"),
        JsonValue::Bool(b) => if *b {
            out.append("true")
        } else {
            out.append("false")
        },
        JsonValue::Number(n) => push_int(out, *n),
        JsonValue::String(s) => push_json_string(out, s.as_str()),
        JsonValue::Array(items) => {
            write_items(out, items);
            assert(final(out)@ =~= old(out)@ + json_text(value@));
        },
        JsonValue::Object(entries) => {
            write_entries(out, entries);
            assert(final(out)@ =~= old(out)@ + json_text(value@));
        },
    }
}

fn write_items(out: &mut String, items: &Vec<JsonValue>)
    ensures
        final(out)@ == old(out)@ + seq!['['] + items_text(models_of(items@)) + seq![']'],
    decreases items, 0nat,
{
    let ghost start = out@;
    push_char(out, '[');
    let mut i: usize = 0;
    while i < items.len()
        invariant
            i <= items.len(),
            out@ == start + seq!['['] + items_text(models_of(items@.subrange(0, i as int))),
        decreases items.len() - i,
    {
        let ghost done = models_of(items@.subrange(0, i as int));
        proof {
            lemma_models_step(items@, i as int);
        }
        if i > 0 {
            push_char(out, ',');
        }
        assert(decreases_to!(items => items[i as int]));
        write_json_value(out, &items[i]);
        proof {
            let next = models_of(items@.subrange(0, i + 1));
            assert(next.subrange(0, i as int) =~= done);
            assert(next[i as int] == model_of(items@[i as int]));
            assert(out@ =~= start + seq!['['] + items_text(next));
        }
        i += 1;
    }
    push_char(out, ']');
    assert(items@.subrange(0, items.len() as int) =~= items@);
}

fn write_entries(out: &mut String, entries: &Vec<(String, JsonValue)>)
    ensures
        final(out)@ == old(out)@ + seq!['{'] + entries_text(entry_models(entries@)) + seq!['}'],
    decreases entries, 0nat,
{
    let ghost start = out@;
    push_char(out, '{');
    let mut i: usize = 0;
    while i < entries.len()
        invariant
            i <= entries.len(),
            out@ == start + seq!['{'] + entries_text(entry_models(entries@.subrange(0, i as int))),
        decreases entries.len() - i,
    {
        let ghost done = entry_models(entries@.subrange(0, i as int));
        proof {
            lemma_entries_step(entries@, i as int);
        }
        let ghost mid = out@;
        if i > 0 {
            push_char(out, ',');
        }
        let entry = &entries[i];
        push_json_string(out, entry.0.as_str());
        push_char(out, ':');
        assert(decreases_to!(entries => entries[i as int]));
        write_json_value(out, &entry.1);
        proof {
            let next = entry_models(entries@.subrange(0, i + 1));
            assert(next.subrange(0, i as int) =~= done);
            assert(next[i as int] == (entry.0@, model_of(entry.1)));
            if i > 0 {
                assert(entries_text(next) == entries_text(done) + seq![','] + quoted(entry.0@) + seq![':']
                    + json_text(entry.1@));
            } else {
                assert(entries_text(next) == quoted(entry.0@) + seq![':'] + json_text(entry.1@));
            }
            assert(out@ =~= start + seq!['{'] + entries_text(next));
        }
        i += 1;
    }
    push_char(out, '}');
    assert(entries@.subrange(0, entries.len() as int) =~= entries@);
}

/// The JSON text of `value`.
pub fn json_string(value: &JsonValue) -> (r: String)
    ensures
        r@ == json_text(value@),
{
    let mut out = String::new();
    write_json_value(&mut out, value);
    assert(out@ =~= json_text(value@));
    out
}

} // verus!
