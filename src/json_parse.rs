//! JSON values and the decoder: UTF-8 text to a [`JsonValue`].
//!
//! Numbers are 64-bit signed integers only: a fraction or an exponent is an
//! error. An object keeps its keys unique and in ascending order, as the
//! ordered map that it stands for; a repeated key keeps the last value.
use vstd::prelude::*;
use vstd::string::*;
use crate::scan::digits_end;
use crate::text::{chars_of, text_eq, digit, is_digit, code, char_of, lemma_char_of, char_from_u32, push_char};

verus! {

broadcast use vstd::std_specs::vec::group_vec_axioms, vstd::seq::group_seq_axioms;

/// A JSON value. An object built by `insert_entry` from an empty one, as the
/// decoder builds them, holds its entries sorted by key with unique keys
/// (`lemma_insert_keeps_order`).
#[derive(Debug, PartialEq)]
pub enum JsonValue {
    Null,
    Bool(bool),
    Number(i64),
    String(String),
    Array(Vec<JsonValue>),
    Object(Vec<(String, JsonValue)>),
}

/// The mathematical content of a [`JsonValue`].
pub enum JsonModel {
    Null,
    Bool(bool),
    Number(int),
    Str(Seq<char>),
    Array(Seq<JsonModel>),
    Object(Seq<(Seq<char>, JsonModel)>),
}

pub open spec fn model_of(v: JsonValue) -> JsonModel
    decreases v,
{
    match v {
        JsonValue::Null => JsonModel::Null,
        JsonValue::Bool(b) => JsonModel::Bool(b),
        JsonValue::Number(n) => JsonModel::Number(n as int),
        JsonValue::String(s) => JsonModel::Str(s@),
        JsonValue::Array(items) => JsonModel::Array(models_of(items@)),
        JsonValue::Object(entries) => JsonModel::Object(entry_models(entries@)),
    }
}

pub open spec fn models_of(s: Seq<JsonValue>) -> Seq<JsonModel>
    decreases s,
{
    if s.len() == 0 {
        seq![]
    } else {
        models_of(s.subrange(0, s.len() - 1)).push(model_of(s[s.len() - 1]))
    }
}

pub open spec fn entry_models(s: Seq<(String, JsonValue)>) -> Seq<(Seq<char>, JsonModel)>
    decreases s,
{
    if s.len() == 0 {
        seq![]
    } else {
        entry_models(s.subrange(0, s.len() - 1)).push(
            (s[s.len() - 1].0@, model_of(s[s.len() - 1].1)),
        )
    }
}

/// Object entries as the model holds them.
pub type Entries = Seq<(Seq<char>, JsonModel)>;

/// The order of keys: lexicographic by code point, as `String`'s order.
pub open spec fn key_lt(a: Seq<char>, b: Seq<char>) -> bool
    decreases a.len(),
{
    if a.len() == 0 {
        b.len() > 0
    } else if b.len() == 0 {
        false
    } else if a[0] != b[0] {
        (a[0] as u32) < (b[0] as u32)
    } else {
        key_lt(a.drop_first(), b.drop_first())
    }
}

/// The value held under `key`.
pub open spec fn lookup(entries: Entries, key: Seq<char>) -> Option<JsonModel>
    decreases entries.len(),
{
    if entries.len() == 0 {
        None
    } else if entries[0].0 == key {
        Some(entries[0].1)
    } else {
        lookup(entries.drop_first(), key)
    }
}

/// `entries` with `key` bound to `v`: the entry of that key replaced, or a
/// new one placed before the first greater key.
pub open spec fn obj_insert(entries: Entries, key: Seq<char>, v: JsonModel) -> Entries
    decreases entries.len(),
{
    if entries.len() == 0 {
        seq![(key, v)]
    } else if entries[0].0 == key {
        seq![(key, v)] + entries.drop_first()
    } else if key_lt(key, entries[0].0) {
        seq![(key, v)] + entries
    } else {
        seq![entries[0]] + obj_insert(entries.drop_first(), key, v)
    }
}

pub fn key_less(a: &str, b: &str) -> (r: bool)
    ensures
        r == key_lt(a@, b@),
{
    let x = chars_of(a);
    let y = chars_of(b);
    let mut i: usize = 0;
    assert(x@.subrange(0, x@.len() as int) =~= a@);
    assert(y@.subrange(0, y@.len() as int) =~= b@);
    while i < x.len() && i < y.len() && x[i] == y[i]
        invariant
            i <= x.len(),
            i <= y.len(),
            key_lt(a@, b@) == key_lt(x@.subrange(i as int, x@.len() as int), y@.subrange(i as int, y@.len() as int)),
            x@ == a@,
            y@ == b@,
        decreases x.len() - i,
    {
        proof {
            let xs = x@.subrange(i as int, x@.len() as int);
            let ys = y@.subrange(i as int, y@.len() as int);
            assert(xs.drop_first() =~= x@.subrange(i + 1, x@.len() as int));
            assert(ys.drop_first() =~= y@.subrange(i + 1, y@.len() as int));
        }
        i += 1;
    }
    if i >= x.len() {
        i < y.len()
    } else if i >= y.len() {
        false
    } else {
        (x[i] as u32) < (y[i] as u32)
    }
}

/// Binds `key` to `value` in `entries`, keeping the key order.
pub fn insert_entry(entries: &mut Vec<(String, JsonValue)>, key: String, value: JsonValue)
    ensures
        entry_models(final(entries)@) == obj_insert(entry_models(old(entries)@), key@, value@),
{
    let ghost m = entry_models(entries@);
    let ghost k = key@;
    let ghost v = value@;
    let ghost target = obj_insert(m, k, v);
    let ghost orig = entries@;
    proof {
        lemma_entry_models(entries@);
    }
    let mut i: usize = 0;
    assert(m.subrange(0, 0) + m.subrange(0, m.len() as int) =~= m);
    while i < entries.len()
        invariant
            entries@ == orig,
            orig == old(entries)@,
            m == entry_models(entries@),
            m.len() == entries.len(),
            forall|j: int| 0 <= j < entries.len() ==> #[trigger] m[j] == (entries@[j].0@, model_of(entries@[j].1)),
            i <= entries.len(),
            k == key@,
            v == value@,
            target == obj_insert(m, k, v),
            target == m.subrange(0, i as int) + obj_insert(m.subrange(i as int, m.len() as int), k, v),
        decreases entries.len() - i,
    {
        let ghost rest = m.subrange(i as int, m.len() as int);
        assert(rest.drop_first() =~= m.subrange(i + 1, m.len() as int));
        assert(rest[0] == m[i as int]);
        if text_eq(entries[i].0.as_str(), key.as_str()) {
            let ghost before = entries@;
            entries.set(i, (key, value));
            proof {
                assert(target =~= m.subrange(0, i as int) + seq![(k, v)] + m.subrange(i + 1, m.len() as int));
                lemma_entries_eq(entries@, target);
            }
            return;
        }
        if key_less(key.as_str(), entries[i].0.as_str()) {
            entries.insert(i, (key, value));
            proof {
                assert(target =~= m.subrange(0, i as int) + seq![(k, v)] + m.subrange(i as int, m.len() as int));
                lemma_entries_eq(entries@, target);
            }
            return;
        }
        proof {
            assert(m.subrange(0, i as int) + (seq![m[i as int]] + obj_insert(m.subrange(i + 1, m.len() as int), k, v))
                =~= m.subrange(0, i + 1) + obj_insert(m.subrange(i + 1, m.len() as int), k, v));
        }
        i += 1;
    }
    entries.push((key, value));
    proof {
        assert(m.subrange(i as int, m.len() as int) =~= Seq::<(Seq<char>, JsonModel)>::empty());
        assert(target =~= m + seq![(k, v)]);
        lemma_entries_eq(entries@, target);
    }
}

impl View for JsonValue {
    type V = JsonModel;

    open spec fn view(&self) -> JsonModel {
        model_of(*self)
    }
}

/// The model of a sequence of values, element by element.
pub proof fn lemma_models_of(s: Seq<JsonValue>)
    ensures
        models_of(s).len() == s.len(),
        forall|i: int| 0 <= i < s.len() ==> #[trigger] models_of(s)[i] == model_of(s[i]),
    decreases s.len(),
{
    if s.len() > 0 {
        lemma_models_of(s.subrange(0, s.len() - 1));
    }
}

/// The model of a sequence of entries, entry by entry.
pub proof fn lemma_entry_models(s: Seq<(String, JsonValue)>)
    ensures
        entry_models(s).len() == s.len(),
        forall|i: int| 0 <= i < s.len() ==> #[trigger] entry_models(s)[i] == (s[i].0@, model_of(s[i].1)),
    decreases s.len(),
{
    if s.len() > 0 {
        lemma_entry_models(s.subrange(0, s.len() - 1));
    }
}

/// Two sequences of values with equal models element by element have equal models.
pub proof fn lemma_models_eq(s: Seq<JsonValue>, m: Seq<JsonModel>)
    requires
        s.len() == m.len(),
        forall|i: int| 0 <= i < s.len() ==> model_of(#[trigger] s[i]) == m[i],
    ensures
        models_of(s) == m,
{
    lemma_models_of(s);
    assert(models_of(s) =~= m);
}

pub proof fn lemma_entries_eq(s: Seq<(String, JsonValue)>, m: Seq<(Seq<char>, JsonModel)>)
    requires
        s.len() == m.len(),
        forall|i: int| 0 <= i < s.len() ==> (#[trigger] s[i].0@, model_of(s[i].1)) == m[i],
    ensures
        entry_models(s) == m,
{
    lemma_entry_models(s);
    assert(entry_models(s) =~= m);
}

impl JsonValue {
    /// A copy of the value, all the way down.
    pub fn deep_copy(&self) -> (r: JsonValue)
        ensures
            r@ == self@,
        decreases self, 1nat,
    {
        match self {
            JsonValue::Null => JsonValue::Null,
            JsonValue::Bool(b) => JsonValue::Bool(*b),
            JsonValue::Number(n) => JsonValue::Number(*n),
            JsonValue::String(s) => JsonValue::String(s.clone()),
            JsonValue::Array(items) => {
                let r = copy_items(items);
                JsonValue::Array(r)
            },
            JsonValue::Object(entries) => {
                let r = copy_entries(entries);
                JsonValue::Object(r)
            },
        }
    }
}

/// A copy of a sequence of values.
pub fn copy_items(items: &Vec<JsonValue>) -> (r: Vec<JsonValue>)
    ensures
        models_of(r@) == models_of(items@),
    decreases items, 0nat,
{
    let mut r: Vec<JsonValue> = Vec::new();
    let mut i: usize = 0;
    while i < items.len()
        invariant
            i <= items.len(),
            r@.len() == i,
            forall|k: int| 0 <= k < i ==> model_of(#[trigger] r@[k]) == model_of(items@[k]),
        decreases items.len() - i,
    {
        assert(decreases_to!(items => items[i as int]));
        let c = items[i].deep_copy();
        r.push(c);
        i += 1;
    }
    proof {
        lemma_models_of(items@);
        lemma_models_eq(r@, models_of(items@));
    }
    r
}

/// A copy of a sequence of object entries.
pub fn copy_entries(entries: &Vec<(String, JsonValue)>) -> (r: Vec<(String, JsonValue)>)
    ensures
        entry_models(r@) == entry_models(entries@),
    decreases entries, 0nat,
{
    let mut r: Vec<(String, JsonValue)> = Vec::new();
    let mut i: usize = 0;
    while i < entries.len()
        invariant
            i <= entries.len(),
            r@.len() == i,
            forall|k: int| 0 <= k < i ==> (#[trigger] r@[k].0@, model_of(r@[k].1)) == (entries@[k].0@, model_of(entries@[k].1)),
        decreases entries.len() - i,
    {
        assert(decreases_to!(entries => entries[i as int]));
        let entry = &entries[i];
        let c = (entry.0.clone(), entry.1.deep_copy());
        r.push(c);
        i += 1;
    }
    proof {
        lemma_entry_models(entries@);
        lemma_entries_eq(r@, entry_models(entries@));
    }
    r
}

// ---------------------------------------------------------------- decoding

/// JSON white space.
pub open spec fn json_ws(c: char) -> bool {
    c == ' ' || c == '\n' || c == '\r' || c == '\t'
}

/// The end of the run of JSON white space that starts at `p`.
pub open spec fn ws_end(s: Seq<char>, p: int) -> int
    decreases s.len() - p,
{
    if 0 <= p < s.len() && json_ws(s[p]) {
        ws_end(s, p + 1)
    } else {
        p
    }
}

/// `s` holds the text `t` at `p`.
pub open spec fn has_text(s: Seq<char>, p: int, t: Seq<char>) -> bool {
    0 <= p && p + t.len() <= s.len() && s.subrange(p, p + t.len()) == t
}

/// The value of a hex digit.
pub open spec fn hex_val(c: char) -> Option<int> {
    if '0' <= c && c <= '9' {
        Some(code(c) - 48)
    } else if 'a' <= c && c <= 'f' {
        Some(code(c) - 87)
    } else if 'A' <= c && c <= 'F' {
        Some(code(c) - 55)
    } else {
        None
    }
}

/// The number written by the four hex digits at `p`.
pub open spec fn hex4(s: Seq<char>, p: int) -> Option<int> {
    if 0 <= p && p + 4 <= s.len() && hex_val(s[p]) is Some && hex_val(s[p + 1]) is Some && hex_val(
        s[p + 2],
    ) is Some && hex_val(s[p + 3]) is Some {
        Some(
            hex_val(s[p])->0 * 4096 + hex_val(s[p + 1])->0 * 256 + hex_val(s[p + 2])->0 * 16 + hex_val(
                s[p + 3],
            )->0,
        )
    } else {
        None
    }
}

/// The character written by the escape whose letter is at `p` (just after
/// the backslash), and the index after the escape. A `\u` escape of a high
/// surrogate must be followed by one of a low surrogate; a lone surrogate is
/// an error.
pub open spec fn escape_at(s: Seq<char>, p: int) -> Option<(char, int)> {
    if p < 0 || p >= s.len() {
        None
    } else {
        let c = s[p];
        if c == '"' {
            Some(('"', p + 1))
        } else if c == '\\' {
            Some(('\\', p + 1))
        } else if c == '/' {
            Some(('/', p + 1))
        } else if c == 'b' {
            Some(('\x08', p + 1))
        } else if c == 'f' {
            Some(('\x0C', p + 1))
        } else if c == 'n' {
            Some(('\n', p + 1))
        } else if c == 'r' {
            Some(('\r', p + 1))
        } else if c == 't' {
            Some(('\t', p + 1))
        } else if c == 'u' {
            match hex4(s, p + 1) {
                None => None,
                Some(h) => if 0xD800 <= h < 0xDC00 {
                    if p + 6 < s.len() && s[p + 5] == '\\' && s[p + 6] == 'u' {
                        match hex4(s, p + 7) {
                            Some(lo) => if 0xDC00 <= lo < 0xE000 {
                                Some((char_of(0x10000 + (h - 0xD800) * 1024 + (lo - 0xDC00)), p + 11))
                            } else {
                                None
                            },
                            None => None,
                        }
                    } else {
                        None
                    }
                } else if 0xDC00 <= h < 0xE000 {
                    None
                } else {
                    Some((char_of(h), p + 5))
                },
            }
        } else {
            None
        }
    }
}

/// The rest of a string literal from `p`, given the characters `acc` read
/// so far: its text and the index after the closing quote.
pub open spec fn string_from(s: Seq<char>, p: int, acc: Seq<char>) -> Option<(Seq<char>, int)>
    decreases s.len() - p,
{
    if p < 0 || p >= s.len() {
        None
    } else if s[p] == '"' {
        Some((acc, p + 1))
    } else if s[p] == '\\' {
        match escape_at(s, p + 1) {
            None => None,
            Some((c, q)) => if p < q {
                string_from(s, q, acc.push(c))
            } else {
                None
            },
        }
    } else {
        string_from(s, p + 1, acc.push(s[p]))
    }
}

/// The value of a run of decimal digits.
pub open spec fn digits_value(d: Seq<char>) -> nat
    decreases d.len(),
{
    if d.len() == 0 {
        0
    } else {
        digits_value(d.drop_last()) * 10 + (code(d.last()) - 48) as nat
    }
}

/// The integer written at `q`: an optional `-` and digits, not followed by a
/// fraction or an exponent, within the range of `i64`.
pub open spec fn number_at(s: Seq<char>, q: int) -> Option<(int, int)> {
    let neg = 0 <= q < s.len() && s[q] == '-';
    let d0 = if neg { q + 1 } else { q };
    let e = digits_end(s, d0);
    if e <= d0 || e > s.len() {
        None
    } else if e < s.len() && (s[e] == '.' || s[e] == 'e' || s[e] == 'E') {
        None
    } else {
        let v = digits_value(s.subrange(d0, e));
        let n = if neg { -v } else { v as int };
        if i64::MIN <= n <= i64::MAX {
            Some((n, e))
        } else {
            None
        }
    }
}

/// The value that starts at or after `p` (after white space), and the index
/// just after it.
pub open spec fn value_at(s: Seq<char>, p: int) -> Option<(JsonModel, int)>
    decreases s.len() - p, 1nat,
{
    let q = ws_end(s, p);
    if q < p || q >= s.len() {
        None
    } else {
        let c = s[q];
        if c == 'n' {
            if has_text(s, q, "null"@) {
                Some((JsonModel::Null, q + 4))
            } else {
                None
            }
        } else if c == 't' || c == 'f' {
            if has_text(s, q, "true"@) {
                Some((JsonModel::Bool(true), q + 4))
            } else if has_text(s, q, "false"@) {
                Some((JsonModel::Bool(false), q + 5))
            } else {
                None
            }
        } else if c == '"' {
            match string_from(s, q + 1, seq![]) {
                Some((t, e)) => Some((JsonModel::Str(t), e)),
                None => None,
            }
        } else if c == '[' {
            array_from(s, q + 1, seq![])
        } else if c == '{' {
            object_from(s, q + 1, seq![])
        } else if c == '-' || digit(c) {
            match number_at(s, q) {
                Some((n, e)) => Some((JsonModel::Number(n), e)),
                None => None,
            }
        } else {
            None
        }
    }
}

/// The rest of an array from `p`, given the elements `acc` read so far.
pub open spec fn array_from(s: Seq<char>, p: int, acc: Seq<JsonModel>) -> Option<(JsonModel, int)>
    decreases s.len() - p, 2nat,
{
    let q = ws_end(s, p);
    if q < p || q >= s.len() {
        None
    } else if s[q] == ']' {
        Some((JsonModel::Array(acc), q + 1))
    } else {
        match value_at(s, q) {
            None => None,
            Some((v, e)) => {
                let f = ws_end(s, e);
                if e <= q || f < e || f >= s.len() {
                    None
                } else if s[f] == ',' {
                    array_from(s, f + 1, acc.push(v))
                } else if s[f] == ']' {
                    Some((JsonModel::Array(acc.push(v)), f + 1))
                } else {
                    None
                }
            },
        }
    }
}

/// The rest of an object from `p`, given the entries `acc` read so far; a
/// repeated key keeps its last value.
pub open spec fn object_from(s: Seq<char>, p: int, acc: Entries) -> Option<(JsonModel, int)>
    decreases s.len() - p, 2nat,
{
    let q = ws_end(s, p);
    if q < p || q >= s.len() {
        None
    } else if s[q] == '}' {
        Some((JsonModel::Object(acc), q + 1))
    } else if s[q] != '"' {
        None
    } else {
        match string_from(s, q + 1, seq![]) {
            None => None,
            Some((k, e1)) => {
                let c = ws_end(s, e1);
                if e1 <= q || c < e1 || c >= s.len() || s[c] != ':' {
                    None
                } else {
                    match value_at(s, c + 1) {
                        None => None,
                        Some((v, e2)) => {
                            let f = ws_end(s, e2);
                            if e2 <= c || f < e2 || f >= s.len() {
                                None
                            } else if s[f] == ',' {
                                object_from(s, f + 1, obj_insert(acc, k, v))
                            } else if s[f] == '}' {
                                Some((JsonModel::Object(obj_insert(acc, k, v)), f + 1))
                            } else {
                                None
                            }
                        },
                    }
                }
            },
        }
    }
}

/// The value that a whole text encodes: one value with only white space
/// around it.
pub open spec fn decode(s: Seq<char>) -> Option<JsonModel> {
    match value_at(s, 0) {
        Some((v, e)) => if ws_end(s, e) >= s.len() {
            Some(v)
        } else {
            None
        },
        None => None,
    }
}

fn skip_ws(s: &Vec<char>, pos: usize) -> (r: usize)
    requires
        pos <= s.len(),
    ensures
        r == ws_end(s@, pos as int),
        pos <= r <= s.len(),
{
    let mut i = pos;
    while i < s.len() && (s[i] == ' ' || s[i] == '\n' || s[i] == '\r' || s[i] == '\t')
        invariant
            pos <= i <= s.len(),
            ws_end(s@, pos as int) == ws_end(s@, i as int),
        decreases s.len() - i,
    {
        i += 1;
    }
    i
}

/// Whether `s` holds the text `t` at `pos`.
fn consume_text(s: &Vec<char>, pos: usize, t: &str) -> (r: bool)
    requires
        pos <= s.len(),
    ensures
        r == has_text(s@, pos as int, t@),
{
    let n = t.unicode_len();
    if s.len() - pos < n {
        return false;
    }
    let mut k: usize = 0;
    while k < n
        invariant
            n == t@.len(),
            pos + n <= s.len(),
            k <= n,
            forall|j: int| 0 <= j < k ==> s@[pos + j] == t@[j],
        decreases n - k,
    {
        if s[pos + k] != t.get_char(k) {
            assert(s@.subrange(pos as int, pos + n)[k as int] != t@[k as int]);
            return false;
        }
        k += 1;
    }
    assert(s@.subrange(pos as int, pos + n) =~= t@);
    true
}

fn hex_digit(c: char) -> (r: Option<u32>)
    ensures
        match r {
            Some(v) => hex_val(c) == Some(v as int) && v < 16,
            None => hex_val(c) is None,
        },
{
    if '0' <= c && c <= '9' {
        Some(c as u32 - 48)
    } else if 'a' <= c && c <= 'f' {
        Some(c as u32 - 87)
    } else if 'A' <= c && c <= 'F' {
        Some(c as u32 - 55)
    } else {
        None
    }
}

/// Reads the four hex digits at `pos`.
fn parse_hex_u16(s: &Vec<char>, pos: usize) -> (r: Result<u32, ()>)
    ensures
        match r {
            Ok(v) => hex4(s@, pos as int) == Some(v as int) && v < 0x10000,
            Err(_) => hex4(s@, pos as int) is None,
        },
{
    if pos > s.len() || s.len() - pos < 4 {
        return Err(());
    }
    let a = match hex_digit(s[pos]) {
        Some(v) => v,
        None => {
            return Err(());
        },
    };
    let b = match hex_digit(s[pos + 1]) {
        Some(v) => v,
        None => {
            return Err(());
        },
    };
    let c = match hex_digit(s[pos + 2]) {
        Some(v) => v,
        None => {
            return Err(());
        },
    };
    let d = match hex_digit(s[pos + 3]) {
        Some(v) => v,
        None => {
            return Err(());
        },
    };
    Ok(a * 4096 + b * 256 + c * 16 + d)
}

/// Reads the escape whose letter is at `pos`.
fn parse_escape(s: &Vec<char>, pos: usize) -> (r: Result<(char, usize), ()>)
    requires
        pos <= s.len(),
    ensures
        match r {
            Ok((c, q)) => escape_at(s@, pos as int) == Some((c, q as int)) && pos < q <= s.len(),
            Err(_) => escape_at(s@, pos as int) is None,
        },
{
    if pos >= s.len() {
        return Err(());
    }
    let c = s[pos];
    if c == '"' {
        Ok(('"', pos + 1))
    } else if c == '\\' {
        Ok(('\\', pos + 1))
    } else if c == '/' {
        Ok(('/', pos + 1))
    } else if c == 'b' {
        Ok(('\x08', pos + 1))
    } else if c == 'f' {
        Ok(('\x0C', pos + 1))
    } else if c == 'n' {
        Ok(('\n', pos + 1))
    } else if c == 'r' {
        Ok(('\r', pos + 1))
    } else if c == 't' {
        Ok(('\t', pos + 1))
    } else if c == 'u' {
        let h = parse_hex_u16(s, pos + 1)?;
        if 0xD800 <= h && h < 0xDC00 {
            if s.len() - pos > 6 && s[pos + 5] == '\\' && s[pos + 6] == 'u' {
                let lo = parse_hex_u16(s, pos + 7)?;
                if 0xDC00 <= lo && lo < 0xE000 {
                    let n = 0x10000 + (h - 0xD800) * 1024 + (lo - 0xDC00);
                    match char_from_u32(n) {
                        Some(ch) => {
                            proof {
                                lemma_char_of(ch);
                            }
                            Ok((ch, pos + 11))
                        },
                        None => Err(()),
                    }
                } else {
                    Err(())
                }
            } else {
                Err(())
            }
        } else if 0xDC00 <= h && h < 0xE000 {
            Err(())
        } else {
            match char_from_u32(h) {
                Some(ch) => {
                    proof {
                        lemma_char_of(ch);
                    }
                    Ok((ch, pos + 5))
                },
                None => Err(()),
            }
        }
    } else {
        Err(())
    }
}

/// Reads the string literal whose opening quote is at `pos`.
fn parse_string(s: &Vec<char>, pos: usize) -> (r: Result<(String, usize), ()>)
    requires
        pos < s.len(),
        s@[pos as int] == '"',
    ensures
        match r {
            Ok((t, e)) => string_from(s@, pos + 1, seq![]) == Some((t@, e as int)) && pos < e <= s.len(),
            Err(_) => string_from(s@, pos + 1, seq![]) is None,
        },
{
    let mut out = String::new();
    let mut i = pos + 1;
    while i < s.len()
        invariant
            pos < i <= s.len(),
            string_from(s@, pos + 1, seq![]) == string_from(s@, i as int, out@),
        decreases s.len() - i,
    {
        let c = s[i];
        if c == '"' {
            return Ok((out, i + 1));
        } else if c == '\\' {
            let (ch, next) = parse_escape(s, i + 1)?;
            push_char(&mut out, ch);
            i = next;
        } else {
            push_char(&mut out, c);
            i += 1;
        }
    }
    Err(())
}

proof fn lemma_digits_value_grows(d: Seq<char>, c: char)
    requires
        digit(c),
    ensures
        digits_value(d.push(c)) == digits_value(d) * 10 + (code(c) - 48),
        digits_value(d.push(c)) >= digits_value(d),
{
    assert(d.push(c).drop_last() =~= d);
}

/// Reads the integer at `pos`.
fn parse_number(s: &Vec<char>, pos: usize) -> (r: Result<(i64, usize), ()>)
    requires
        pos < s.len(),
    ensures
        match r {
            Ok((n, e)) => number_at(s@, pos as int) == Some((n as int, e as int)) && pos < e <= s.len(),
            Err(_) => number_at(s@, pos as int) is None,
        },
{
    let neg = s[pos] == '-';
    let d0 = if neg { pos + 1 } else { pos };
    let limit: u128 = 9223372036854775808;
    let mut acc: u128 = 0;
    let mut overflow = false;
    let mut i = d0;
    assert(s@.subrange(d0 as int, d0 as int) =~= Seq::<char>::empty());
    while i < s.len() && is_digit(s[i])
        invariant
            d0 <= i <= s.len(),
            digits_end(s@, d0 as int) == digits_end(s@, i as int),
            !overflow ==> acc == digits_value(s@.subrange(d0 as int, i as int)) && acc <= limit,
            overflow ==> digits_value(s@.subrange(d0 as int, i as int)) > limit,
            limit == 9223372036854775808,
        decreases s.len() - i,
    {
        let ghost before = s@.subrange(d0 as int, i as int);
        proof {
            lemma_digits_value_grows(before, s@[i as int]);
            assert(s@.subrange(d0 as int, i + 1) =~= before.push(s@[i as int]));
        }
        if !overflow {
            let next = acc * 10 + (s[i] as u32 - 48) as u128;
            if next > limit {
                overflow = true;
            } else {
                acc = next;
            }
        }
        i += 1;
    }
    if i == d0 {
        return Err(());
    }
    if i < s.len() && (s[i] == '.' || s[i] == 'e' || s[i] == 'E') {
        return Err(());
    }
    if overflow {
        return Err(());
    }
    if neg {
        let n = (0i128 - acc as i128) as i64;
        Ok((n, i))
    } else if acc >= limit {
        Err(())
    } else {
        Ok((acc as i64, i))
    }
}

/// Reads the value that starts at or after `pos`.
fn parse_value(s: &Vec<char>, pos: usize) -> (r: Result<(JsonValue, usize), ()>)
    requires
        pos <= s.len(),
    ensures
        match r {
            Ok((v, e)) => value_at(s@, pos as int) == Some((v@, e as int)) && pos < e <= s.len(),
            Err(_) => value_at(s@, pos as int) is None,
        },
    decreases s.len() - pos, 1nat,
{
    proof {
        reveal_strlit("null");
        reveal_strlit("true");
        reveal_strlit("false");
    }
    let q = skip_ws(s, pos);
    if q >= s.len() {
        return Err(());
    }
    let c = s[q];
    if c == 'n' {
        if consume_text(s, q, "null") {
            Ok((JsonValue::Null, q + 4))
        } else {
            Err(())
        }
    } else if c == 't' || c == 'f' {
        if consume_text(s, q, "true") {
            Ok((JsonValue::Bool(true), q + 4))
        } else if consume_text(s, q, "false") {
            Ok((JsonValue::Bool(false), q + 5))
        } else {
            Err(())
        }
    } else if c == '"' {
        let (text, e) = parse_string(s, q)?;
        Ok((JsonValue::String(text), e))
    } else if c == '[' {
        parse_array(s, q + 1)
    } else if c == '{' {
        parse_object(s, q + 1)
    } else if c == '-' || is_digit(c) {
        let (n, e) = parse_number(s, q)?;
        Ok((JsonValue::Number(n), e))
    } else {
        Err(())
    }
}

/// Reads the rest of an array whose `[` is just before `start`.
fn parse_array(s: &Vec<char>, start: usize) -> (r: Result<(JsonValue, usize), ()>)
    requires
        start <= s.len(),
    ensures
        match r {
            Ok((v, e)) => array_from(s@, start as int, seq![]) == Some((v@, e as int)) && start < e <= s.len(),
            Err(_) => array_from(s@, start as int, seq![]) is None,
        },
    decreases s.len() - start, 2nat,
{
    let mut items: Vec<JsonValue> = Vec::new();
    let mut i = start;
    assert(models_of(items@) =~= Seq::<JsonModel>::empty());
    loop
        invariant
            start <= i <= s.len(),
            array_from(s@, start as int, seq![]) == array_from(s@, i as int, models_of(items@)),
        decreases s.len() - i,
    {
        let q = skip_ws(s, i);
        if q >= s.len() {
            return Err(());
        }
        if s[q] == ']' {
            return Ok((JsonValue::Array(items), q + 1));
        }
        let (value, e) = parse_value(s, q)?;
        let ghost before = items@;
        let ghost vm = value@;
        items.push(value);
        assert(items@.subrange(0, items@.len() - 1) =~= before);
        assert(models_of(items@) == models_of(before).push(vm));
        let f = skip_ws(s, e);
        if f >= s.len() {
            return Err(());
        }
        if s[f] == ',' {
            i = f + 1;
        } else if s[f] == ']' {
            return Ok((JsonValue::Array(items), f + 1));
        } else {
            return Err(());
        }
    }
}

/// Reads the rest of an object whose `{` is just before `start`.
fn parse_object(s: &Vec<char>, start: usize) -> (r: Result<(JsonValue, usize), ()>)
    requires
        start <= s.len(),
    ensures
        match r {
            Ok((v, e)) => object_from(s@, start as int, seq![]) == Some((v@, e as int)) && start < e <= s.len(),
            Err(_) => object_from(s@, start as int, seq![]) is None,
        },
    decreases s.len() - start, 2nat,
{
    let mut entries: Vec<(String, JsonValue)> = Vec::new();
    let mut i = start;
    assert(entry_models(entries@) =~= Seq::<(Seq<char>, JsonModel)>::empty());
    loop
        invariant
            start <= i <= s.len(),
            object_from(s@, start as int, seq![]) == object_from(s@, i as int, entry_models(entries@)),
        decreases s.len() - i,
    {
        let q = skip_ws(s, i);
        if q >= s.len() {
            return Err(());
        }
        if s[q] == '}' {
            return Ok((JsonValue::Object(entries), q + 1));
        }
        if s[q] != '"' {
            return Err(());
        }
        let (key, e1) = parse_string(s, q)?;
        let c = skip_ws(s, e1);
        if c >= s.len() || s[c] != ':' {
            return Err(());
        }
        let (value, e2) = parse_value(s, c + 1)?;
        insert_entry(&mut entries, key, value);
        let f = skip_ws(s, e2);
        if f >= s.len() {
            return Err(());
        }
        if s[f] == ',' {
            i = f + 1;
        } else if s[f] == '}' {
            return Ok((JsonValue::Object(entries), f + 1));
        } else {
            return Err(());
        }
    }
}

/// Decodes a whole JSON text.
pub fn parse_json(input: &str) -> (r: Result<JsonValue, ()>)
    ensures
        match r {
            Ok(v) => decode(input@) == Some(v@),
            Err(_) => decode(input@) is None,
        },
{
    let chars = chars_of(input);
    let (value, end) = parse_value(&chars, 0)?;
    let rest = skip_ws(&chars, end);
    if rest < chars.len() {
        return Err(());
    }
    Ok(value)
}

// ---------------------------------------------------------------- key order

/// Keys strictly ascending, hence unique.
pub open spec fn sorted_keys(e: Entries) -> bool {
    forall|i: int, j: int| 0 <= i < j < e.len() ==> key_lt(#[trigger] e[i].0, #[trigger] e[j].0)
}

proof fn lemma_key_lt_trans(a: Seq<char>, b: Seq<char>, c: Seq<char>)
    requires
        key_lt(a, b),
        key_lt(b, c),
    ensures
        key_lt(a, c),
    decreases a.len(),
{
    if a.len() > 0 && b.len() > 0 && c.len() > 0 && a[0] == b[0] && b[0] == c[0] {
        lemma_key_lt_trans(a.drop_first(), b.drop_first(), c.drop_first());
    }
}

proof fn lemma_key_lt_total(a: Seq<char>, b: Seq<char>)
    ensures
        a == b || key_lt(a, b) || key_lt(b, a),
    decreases a.len(),
{
    if a.len() > 0 && b.len() > 0 && a[0] == b[0] {
        lemma_key_lt_total(a.drop_first(), b.drop_first());
        if a.drop_first() == b.drop_first() {
            assert(a =~= seq![a[0]] + a.drop_first());
            assert(b =~= seq![b[0]] + b.drop_first());
        }
    } else if a.len() > 0 && b.len() > 0 {
        lemma_char_of(a[0]);
        lemma_char_of(b[0]);
        assert(code(a[0]) != code(b[0]));
    } else if a.len() == 0 && b.len() == 0 {
        assert(a =~= b);
    }
}

proof fn lemma_insert_keys(e: Entries, k: Seq<char>, v: JsonModel, i: int)
    requires
        0 <= i < obj_insert(e, k, v).len(),
    ensures
        obj_insert(e, k, v)[i].0 == k || exists|j: int| 0 <= j < e.len() && #[trigger] e[j].0 == obj_insert(e, k, v)[i].0,
    decreases e.len(),
{
    if e.len() > 0 && e[0].0 != k && !key_lt(k, e[0].0) {
        if i == 0 {
            assert(e[0].0 == obj_insert(e, k, v)[i].0);
        } else {
            lemma_insert_keys(e.drop_first(), k, v, i - 1);
            if obj_insert(e.drop_first(), k, v)[i - 1].0 != k {
                let j = choose|j: int| 0 <= j < e.drop_first().len() && #[trigger] e.drop_first()[j].0 == obj_insert(
                    e.drop_first(),
                    k,
                    v,
                )[i - 1].0;
                assert(e[j + 1].0 == obj_insert(e, k, v)[i].0);
            }
        }
    } else if e.len() > 0 && e[0].0 == k {
        if i > 0 {
            assert(e[i].0 == obj_insert(e, k, v)[i].0);
        }
    } else if e.len() > 0 {
        if i > 0 {
            assert(e[i - 1].0 == obj_insert(e, k, v)[i].0);
        }
    }
}

/// Binding a key in an object whose keys are strictly ascending keeps them
/// strictly ascending (so unique), and the key then holds the new value.
pub proof fn lemma_insert_keeps_order(e: Entries, k: Seq<char>, v: JsonModel)
    requires
        sorted_keys(e),
    ensures
        sorted_keys(obj_insert(e, k, v)),
        lookup(obj_insert(e, k, v), k) == Some(v),
    decreases e.len(),
{
    let r = obj_insert(e, k, v);
    if e.len() == 0 {
    } else if e[0].0 == k {
        assert forall|i: int, j: int| 0 <= i < j < r.len() implies key_lt(#[trigger] r[i].0, #[trigger] r[j].0) by {
            assert(r[i].0 == e[i].0);
            assert(r[j].0 == e[j].0);
        }
    } else if key_lt(k, e[0].0) {
        assert forall|i: int, j: int| 0 <= i < j < r.len() implies key_lt(#[trigger] r[i].0, #[trigger] r[j].0) by {
            if i == 0 {
                if j > 1 {
                    lemma_key_lt_trans(k, e[0].0, e[j - 1].0);
                }
            } else {
                assert(r[i].0 == e[i - 1].0);
                assert(r[j].0 == e[j - 1].0);
            }
        }
    } else {
        let t = e.drop_first();
        assert(sorted_keys(t)) by {
            assert forall|i: int, j: int| 0 <= i < j < t.len() implies key_lt(#[trigger] t[i].0, #[trigger] t[j].0) by {
                assert(t[i] == e[i + 1]);
                assert(t[j] == e[j + 1]);
            }
        }
        lemma_insert_keeps_order(t, k, v);
        lemma_key_lt_total(k, e[0].0);
        let rt = obj_insert(t, k, v);
        assert forall|i: int, j: int| 0 <= i < j < r.len() implies key_lt(#[trigger] r[i].0, #[trigger] r[j].0) by {
            if i == 0 {
                lemma_insert_keys(t, k, v, j - 1);
                assert(r[j] == rt[j - 1]);
                if rt[j - 1].0 != k {
                    let m = choose|m: int| 0 <= m < t.len() && #[trigger] t[m].0 == rt[j - 1].0;
                    assert(t[m] == e[m + 1]);
                }
            } else {
                assert(r[i] == rt[i - 1]);
                assert(r[j] == rt[j - 1]);
            }
        }
        assert(r.drop_first() =~= rt);
    }
    if e.len() > 0 && e[0].0 != k && !key_lt(k, e[0].0) {
        assert(r.drop_first() =~= obj_insert(e.drop_first(), k, v));
    }
}

} // verus!
