//! The flow interpreter: runs one flow of a lowered program against a keyed
//! state and records an ordered execution trace.
//!
//! Only `Set` and `Return` statements and `Literal` and `StatePath`
//! expressions are implemented; any other tag fails the call as unsupported
//! (`N3_STATUS_NOT_IMPLEMENTED`). Missing structure, an unresolvable state
//! reference or a flow that cannot be selected fails it as invalid input
//! (`N3_STATUS_INVALID_ARGUMENT`). A failed call returns no trace.
use vstd::prelude::*;
use vstd::string::*;
use crate::n3_status;
use crate::json_parse::{JsonModel, JsonValue, Entries, lookup, obj_insert, insert_entry, model_of, models_of, entry_models, lemma_models_of, lemma_entry_models, lemma_models_eq, lemma_entries_eq, copy_entries};
use crate::json::{json_string, json_text};
use crate::json_parse::{decode, parse_json};
use crate::scan::blank_end;
use crate::text::{chars_of, text_eq, decimal, push_decimal, push_char, is_whitespace};
use vstd::utf8::encode_utf8;

verus! {

broadcast use vstd::seq::group_seq_axioms, vstd::std_specs::vec::group_vec_axioms;


// ---------------------------------------------------------------- objects

pub open spec fn field(m: JsonModel, key: Seq<char>) -> Option<JsonModel> {
    match m {
        JsonModel::Object(e) => lookup(e, key),
        _ => None,
    }
}

pub open spec fn str_of(m: Option<JsonModel>) -> Option<Seq<char>> {
    match m {
        Some(JsonModel::Str(s)) => Some(s),
        _ => None,
    }
}

pub open spec fn array_of(m: Option<JsonModel>) -> Option<Seq<JsonModel>> {
    match m {
        Some(JsonModel::Array(a)) => Some(a),
        _ => None,
    }
}

pub open spec fn int_of(m: Option<JsonModel>) -> Option<int> {
    match m {
        Some(JsonModel::Number(n)) => Some(n),
        _ => None,
    }
}

pub open spec fn path_views(p: Seq<String>) -> Seq<Seq<char>> {
    p.map_values(|s: String| s@)
}

/// The value held under `key` among `entries`.
fn lookup_entry<'a>(entries: &'a Vec<(String, JsonValue)>, key: &str) -> (r: Option<&'a JsonValue>)
    ensures
        match r {
            Some(v) => lookup(entry_models(entries@), key@) == Some(v@),
            None => lookup(entry_models(entries@), key@) is None,
        },
{
    let ghost m = entry_models(entries@);
    proof {
        lemma_entry_models(entries@);
    }
    let mut i: usize = 0;
    assert(m.subrange(0, m.len() as int) =~= m);
    while i < entries.len()
        invariant
            m == entry_models(entries@),
            m.len() == entries.len(),
            forall|k: int| 0 <= k < entries.len() ==> #[trigger] m[k] == (entries@[k].0@, model_of(entries@[k].1)),
            i <= entries.len(),
            lookup(m, key@) == lookup(m.subrange(i as int, m.len() as int), key@),
        decreases entries.len() - i,
    {
        assert(m.subrange(i as int, m.len() as int).drop_first() =~= m.subrange(i + 1, m.len() as int));
        if text_eq(entries[i].0.as_str(), key) {
            return Some(&entries[i].1);
        }
        i += 1;
    }
    None
}

fn object_field<'a>(value: &'a JsonValue, key: &str) -> (r: Option<&'a JsonValue>)
    ensures
        match r {
            Some(v) => field(value@, key@) == Some(v@),
            None => field(value@, key@) is None,
        },
{
    match value {
        JsonValue::Object(entries) => lookup_entry(entries, key),
        _ => None,
    }
}

fn value_as_string(value: Option<&JsonValue>) -> (r: Option<&str>)
    ensures
        match r {
            Some(s) => str_of(opt_model(value)) == Some(s@),
            None => str_of(opt_model(value)) is None,
        },
{
    match value {
        Some(JsonValue::String(text)) => Some(text.as_str()),
        _ => None,
    }
}

fn value_as_array(value: Option<&JsonValue>) -> (r: Option<&Vec<JsonValue>>)
    ensures
        match r {
            Some(a) => array_of(opt_model(value)) == Some(models_of(a@)),
            None => array_of(opt_model(value)) is None,
        },
{
    match value {
        Some(JsonValue::Array(items)) => Some(items),
        _ => None,
    }
}

fn value_as_i64(value: Option<&JsonValue>) -> (r: Option<i64>)
    ensures
        match r {
            Some(n) => int_of(opt_model(value)) == Some(n as int),
            None => int_of(opt_model(value)) is None,
        },
{
    match value {
        Some(JsonValue::Number(n)) => Some(*n),
        _ => None,
    }
}

pub open spec fn opt_model(v: Option<&JsonValue>) -> Option<JsonModel> {
    match v {
        Some(x) => Some(x@),
        None => None,
    }
}

// ---------------------------------------------------------------- state

/// The segments of a `StatePath` node.
pub open spec fn state_path_spec(m: JsonModel) -> Result<Seq<Seq<char>>, n3_status> {
    match str_of(field(m, "type"@)) {
        None => Err(n3_status::N3_STATUS_INVALID_ARGUMENT),
        Some(t) => if t != "StatePath"@ {
            Err(n3_status::N3_STATUS_NOT_IMPLEMENTED)
        } else {
            match array_of(field(m, "path"@)) {
                None => Err(n3_status::N3_STATUS_INVALID_ARGUMENT),
                Some(items) => if forall|i: int| 0 <= i < items.len() ==> (#[trigger] items[i]) is Str {
                    Ok(Seq::new(items.len(), |i: int| items[i]->Str_0))
                } else {
                    Err(n3_status::N3_STATUS_INVALID_ARGUMENT)
                },
            }
        },
    }
}

/// The value at `path` below `cur`: every segment but the last must reach
/// an object, and every key must be present.
pub open spec fn resolve_from(cur: JsonModel, path: Seq<Seq<char>>) -> Option<JsonModel>
    decreases path.len(),
{
    if path.len() == 0 {
        Some(cur)
    } else {
        match cur {
            JsonModel::Object(e) => match lookup(e, path[0]) {
                Some(next) => resolve_from(next, path.drop_first()),
                None => None,
            },
            _ => None,
        }
    }
}

/// The state after writing `v` at `path`: missing objects on the way are
/// created, and a value on the way that is not an object is replaced by one.
pub open spec fn set_path(entries: Entries, path: Seq<Seq<char>>, v: JsonModel) -> Entries
    decreases path.len(),
{
    if path.len() == 0 {
        entries
    } else if path.len() == 1 {
        obj_insert(entries, path[0], v)
    } else {
        let child = match lookup(entries, path[0]) {
            Some(JsonModel::Object(m)) => m,
            _ => seq![],
        };
        obj_insert(entries, path[0], JsonModel::Object(set_path(child, path.drop_first(), v)))
    }
}

/// What an expression evaluates to in state `st`.
pub open spec fn eval_spec(expr: JsonModel, st: Entries) -> Result<JsonModel, n3_status> {
    match str_of(field(expr, "type"@)) {
        None => Err(n3_status::N3_STATUS_INVALID_ARGUMENT),
        Some(t) => if t == "Literal"@ {
            match field(expr, "value"@) {
                Some(v) => Ok(v),
                None => Err(n3_status::N3_STATUS_INVALID_ARGUMENT),
            }
        } else if t == "StatePath"@ {
            match state_path_spec(expr) {
                Err(e) => Err(e),
                Ok(p) => match resolve_from(JsonModel::Object(st), p) {
                    Some(v) => Ok(v),
                    None => Err(n3_status::N3_STATUS_INVALID_ARGUMENT),
                },
            }
        } else {
            Err(n3_status::N3_STATUS_NOT_IMPLEMENTED)
        },
    }
}

fn state_path(value: &JsonValue) -> (r: Result<Vec<String>, n3_status>)
    ensures
        match r {
            Ok(p) => state_path_spec(value@) == Ok::<Seq<Seq<char>>, n3_status>(path_views(p@)),
            Err(e) => state_path_spec(value@) == Err::<Seq<Seq<char>>, n3_status>(e),
        },
{
    let kind = match value_as_string(object_field(value, "type")) {
        Some(k) => k,
        None => {
            return Err(n3_status::N3_STATUS_INVALID_ARGUMENT);
        },
    };
    if !text_eq(kind, "StatePath") {
        return Err(n3_status::N3_STATUS_NOT_IMPLEMENTED);
    }
    let path = match value_as_array(object_field(value, "path")) {
        Some(p) => p,
        None => {
            return Err(n3_status::N3_STATUS_INVALID_ARGUMENT);
        },
    };
    let ghost items = models_of(path@);
    proof {
        lemma_models_of(path@);
    }
    let mut segments: Vec<String> = Vec::new();
    let mut i: usize = 0;
    while i < path.len()
        invariant
            items == models_of(path@),
            array_of(field(value@, "path"@)) == Some(items),
            str_of(field(value@, "type"@)) == Some("StatePath"@),
            items.len() == path.len(),
            forall|k: int| 0 <= k < path.len() ==> #[trigger] items[k] == model_of(path@[k]),
            i <= path.len(),
            segments@.len() == i,
            forall|k: int| 0 <= k < i ==> (#[trigger] items[k]) is Str && items[k]->Str_0 == segments@[k]@,
        decreases path.len() - i,
    {
        match &path[i] {
            JsonValue::String(text) => {
                segments.push(text.clone());
            },
            _ => {
                assert(!(items[i as int] is Str));
                assert(!(forall|k: int| 0 <= k < items.len() ==> (#[trigger] items[k]) is Str));
                return Err(n3_status::N3_STATUS_INVALID_ARGUMENT);
            },
        }
        i += 1;
    }
    assert(path_views(segments@) =~= Seq::new(items.len(), |k: int| items[k]->Str_0));
    Ok(segments)
}

/// The value at `path` in the state, or an invalid-input failure.
fn resolve_state_path(state: &Vec<(String, JsonValue)>, path: &Vec<String>) -> (r: Result<JsonValue, n3_status>)
    ensures
        match r {
            Ok(v) => resolve_from(JsonModel::Object(entry_models(state@)), path_views(path@)) == Some(v@),
            Err(e) => e == n3_status::N3_STATUS_INVALID_ARGUMENT && resolve_from(
                JsonModel::Object(entry_models(state@)),
                path_views(path@),
            ) is None,
        },
{
    let ghost p = path_views(path@);
    if path.len() == 0 {
        let copy = copy_entries(state);
        return Ok(JsonValue::Object(copy));
    }
    let mut cur: &JsonValue = match lookup_entry(state, path[0].as_str()) {
        Some(v) => v,
        None => {
            return Err(n3_status::N3_STATUS_INVALID_ARGUMENT);
        },
    };
    assert(p.drop_first() =~= p.subrange(1, p.len() as int));
    let mut i: usize = 1;
    while i < path.len()
        invariant
            p == path_views(path@),
            1 <= i <= path.len(),
            resolve_from(JsonModel::Object(entry_models(state@)), p) == resolve_from(cur@, p.subrange(i as int, p.len() as int)),
        decreases path.len() - i,
    {
        let ghost rest = p.subrange(i as int, p.len() as int);
        assert(rest.drop_first() =~= p.subrange(i + 1, p.len() as int));
        match cur {
            JsonValue::Object(entries) => match lookup_entry(entries, path[i].as_str()) {
                Some(next) => {
                    cur = next;
                },
                None => {
                    return Err(n3_status::N3_STATUS_INVALID_ARGUMENT);
                },
            },
            _ => {
                return Err(n3_status::N3_STATUS_INVALID_ARGUMENT);
            },
        }
        i += 1;
    }
    assert(p.subrange(i as int, p.len() as int) =~= Seq::<Seq<char>>::empty());
    Ok(cur.deep_copy())
}

fn set_from(state: &mut Vec<(String, JsonValue)>, path: &Vec<String>, from: usize, value: JsonValue)
    requires
        from < path.len(),
    ensures
        entry_models(final(state)@) == set_path(
            entry_models(old(state)@),
            path_views(path@).subrange(from as int, path@.len() as int),
            value@,
        ),
    decreases path.len() - from,
{
    let ghost p = path_views(path@).subrange(from as int, path@.len() as int);
    let key = path[from].clone();
    if from + 1 == path.len() {
        insert_entry(state, key, value);
        return;
    }
    let mut child: Vec<(String, JsonValue)> = match lookup_entry(state, key.as_str()) {
        Some(JsonValue::Object(m)) => copy_entries(m),
        _ => Vec::new(),
    };
    assert(p.drop_first() =~= path_views(path@).subrange(from + 1, path@.len() as int));
    set_from(&mut child, path, from + 1, value);
    insert_entry(state, key, JsonValue::Object(child));
}

/// Writes `value` at `path` in the state; an empty path is invalid input.
fn set_state_path(state: &mut Vec<(String, JsonValue)>, path: &Vec<String>, value: JsonValue) -> (r: Result<(), n3_status>)
    ensures
        path@.len() == 0 ==> r == Err::<(), n3_status>(n3_status::N3_STATUS_INVALID_ARGUMENT) && final(state)@ == old(state)@,
        path@.len() > 0 ==> r is Ok && entry_models(final(state)@) == set_path(
            entry_models(old(state)@),
            path_views(path@),
            value@,
        ),
{
    if path.len() == 0 {
        return Err(n3_status::N3_STATUS_INVALID_ARGUMENT);
    }
    set_from(state, path, 0, value);
    assert(path_views(path@).subrange(0, path@.len() as int) =~= path_views(path@));
    Ok(())
}

/// Evaluates an expression in the current state.
fn eval_expr(expr: &JsonValue, state: &Vec<(String, JsonValue)>) -> (r: Result<JsonValue, n3_status>)
    ensures
        match r {
            Ok(v) => eval_spec(expr@, entry_models(state@)) == Ok::<JsonModel, n3_status>(v@),
            Err(e) => eval_spec(expr@, entry_models(state@)) == Err::<JsonModel, n3_status>(e),
        },
{
    let expr_type = match value_as_string(object_field(expr, "type")) {
        Some(t) => t,
        None => {
            return Err(n3_status::N3_STATUS_INVALID_ARGUMENT);
        },
    };
    if text_eq(expr_type, "Literal") {
        match object_field(expr, "value") {
            Some(v) => Ok(v.deep_copy()),
            None => Err(n3_status::N3_STATUS_INVALID_ARGUMENT),
        }
    } else if text_eq(expr_type, "StatePath") {
        let path = state_path(expr)?;
        resolve_state_path(state, &path)
    } else {
        Err(n3_status::N3_STATUS_NOT_IMPLEMENTED)
    }
}

// ---------------------------------------------------------------- trace

/// A decimal number padded with zeros to four digits.
pub open spec fn padded(d: Seq<char>) -> Seq<char> {
    if d.len() < 4 {
        Seq::new((4 - d.len()) as nat, |_i: int| '0') + d
    } else {
        d
    }
}

/// The id of the `n`-th step: `step:0001`, `step:0002`, ...
pub open spec fn step_id(n: nat) -> Seq<char> {
    "step:"@ + padded(decimal(n))
}

pub open spec fn num_or_null(o: Option<int>) -> JsonModel {
    match o {
        Some(n) => JsonModel::Number(n),
        None => JsonModel::Null,
    }
}

pub open spec fn text_or_null(o: Option<Seq<char>>) -> JsonModel {
    match o {
        Some(t) => JsonModel::Str(t),
        None => JsonModel::Null,
    }
}

/// The `n`-th step of a trace, keys in lexicographic order.
pub open spec fn step_model(
    n: nat,
    kind: Seq<char>,
    what: Seq<char>,
    because: Option<Seq<char>>,
    line: Option<int>,
    column: Option<int>,
) -> JsonModel {
    JsonModel::Object(
        seq![
            ("because"@, text_or_null(because)),
            ("column"@, num_or_null(column)),
            ("data"@, JsonModel::Object(seq![])),
            ("id"@, JsonModel::Str(step_id(n))),
            ("kind"@, JsonModel::Str(kind)),
            ("line"@, num_or_null(line)),
            ("what"@, JsonModel::Str(what)),
        ],
    )
}

fn owned(s: &str) -> (r: String)
    ensures
        r@ == s@,
{
    let chars = chars_of(s);
    crate::text::string_of(chars.as_slice())
}

fn render_step_id(n: u128) -> (r: String)
    ensures
        r@ == step_id(n as nat),
{
    let mut digits = String::new();
    push_decimal(&mut digits, n);
    let len = digits.as_str().unicode_len();
    let mut out = owned("step:");
    let ghost zeros = if len < 4 { (4 - len) as nat } else { 0 };
    let mut k = len;
    while k < 4
        invariant
            len == decimal(n as nat).len(),
            len <= k,
            k <= 4 || k == len,
            out@ == "step:"@ + Seq::new((k - len) as nat, |_i: int| '0'),
        decreases 4 - k,
    {
        push_char(&mut out, '0');
        k += 1;
        assert(out@ =~= "step:"@ + Seq::new((k - len) as nat, |_i: int| '0'));
    }
    out.append(digits.as_str());
    assert(out@ =~= step_id(n as nat)) by {
        if len >= 4 {
            assert(Seq::new((k - len) as nat, |_i: int| '0') =~= Seq::<char>::empty());
        }
    }
    out
}

fn opt_number(value: Option<i64>) -> (r: JsonValue)
    ensures
        r@ == num_or_null(match value {
            Some(n) => Some(n as int),
            None => None,
        }),
{
    match value {
        Some(n) => JsonValue::Number(n),
        None => JsonValue::Null,
    }
}

pub open spec fn opt_int(v: Option<i64>) -> Option<int> {
    match v {
        Some(n) => Some(n as int),
        None => None,
    }
}

pub open spec fn opt_text(v: Option<&str>) -> Option<Seq<char>> {
    match v {
        Some(t) => Some(t@),
        None => None,
    }
}

/// Appends the next step to the trace; its id is its 1-based position.
fn record_step(
    steps: &mut Vec<JsonValue>,
    kind: &str,
    what: String,
    because: Option<&str>,
    line: Option<i64>,
    column: Option<i64>,
)
    ensures
        models_of(final(steps)@) == models_of(old(steps)@).push(
            step_model(
                (old(steps)@.len() + 1) as nat,
                kind@,
                what@,
                opt_text(because),
                opt_int(line),
                opt_int(column),
            ),
        ),
{
    let n = steps.len() as u128 + 1;
    let because_value = match because {
        Some(text) => JsonValue::String(owned(text)),
        None => JsonValue::Null,
    };
    let mut map: Vec<(String, JsonValue)> = Vec::new();
    map.push((owned("because"), because_value));
    map.push((owned("column"), opt_number(column)));
    map.push((owned("data"), JsonValue::Object(Vec::new())));
    map.push((owned("id"), JsonValue::String(render_step_id(n))));
    map.push((owned("kind"), JsonValue::String(owned(kind))));
    map.push((owned("line"), opt_number(line)));
    map.push((owned("what"), JsonValue::String(what)));
    let ghost expected = step_model(
        (old(steps)@.len() + 1) as nat,
        kind@,
        what@,
        opt_text(because),
        opt_int(line),
        opt_int(column),
    );
    proof {
        let empty: Seq<(String, JsonValue)> = map@[2].1->Object_0@;
        assert(entry_models(empty) =~= Seq::<(Seq<char>, JsonModel)>::empty());
        lemma_entries_eq(map@, expected->Object_0);
    }
    let ghost before = steps@;
    steps.push(JsonValue::Object(map));
    proof {
        lemma_models_of(before);
        lemma_models_eq(steps@, models_of(before).push(expected));
    }
}

/// The path written as the message of a `statement_set` step: its
/// segments joined by dots.
pub open spec fn dotted(p: Seq<Seq<char>>) -> Seq<char>
    decreases p.len(),
{
    if p.len() == 0 {
        seq![]
    } else if p.len() == 1 {
        p[0]
    } else {
        dotted(p.drop_last()) + seq!['.'] + p.last()
    }
}

fn join_path(path: &Vec<String>) -> (r: String)
    ensures
        r@ == dotted(path_views(path@)),
{
    let ghost p = path_views(path@);
    let mut out = String::new();
    let mut i: usize = 0;
    while i < path.len()
        invariant
            p == path_views(path@),
            i <= path.len(),
            out@ == dotted(p.subrange(0, i as int)),
        decreases path.len() - i,
    {
        if i > 0 {
            push_char(&mut out, '.');
        }
        out.append(path[i].as_str());
        proof {
            let next = p.subrange(0, i + 1);
            assert(next.drop_last() =~= p.subrange(0, i as int));
        }
        i += 1;
    }
    assert(p.subrange(0, i as int) =~= p);
    out
}

// ---------------------------------------------------------------- flows

/// Runs one statement from state `st`, trace `steps` and last value `last`:
/// the new state, trace and last value, and whether the statement was a
/// `Return` (which ends the body); or the failure.
pub open spec fn run_one(stmt: JsonModel, st: Entries, steps: Seq<JsonModel>, last: JsonModel) -> Result<
    (Entries, Seq<JsonModel>, JsonModel, bool),
    n3_status,
> {
    let line = int_of(field(stmt, "line"@));
    let column = int_of(field(stmt, "column"@));
    match str_of(field(stmt, "type"@)) {
        None => Err(n3_status::N3_STATUS_INVALID_ARGUMENT),
        Some(t) => if t == "Set"@ {
            match field(stmt, "target"@) {
                None => Err(n3_status::N3_STATUS_INVALID_ARGUMENT),
                Some(target) => match state_path_spec(target) {
                    Err(e) => Err(e),
                    Ok(path) => match field(stmt, "expression"@) {
                        None => Err(n3_status::N3_STATUS_INVALID_ARGUMENT),
                        Some(expr) => match eval_spec(expr, st) {
                            Err(e) => Err(e),
                            Ok(v) => if path.len() == 0 {
                                Err(n3_status::N3_STATUS_INVALID_ARGUMENT)
                            } else {
                                let step = step_model(
                                    (steps.len() + 1) as nat,
                                    "statement_set"@,
                                    "set state."@ + dotted(path),
                                    None,
                                    line,
                                    column,
                                );
                                Ok((set_path(st, path, v), steps.push(step), v, false))
                            },
                        },
                    },
                },
            }
        } else if t == "Return"@ {
            match field(stmt, "expression"@) {
                None => Err(n3_status::N3_STATUS_INVALID_ARGUMENT),
                Some(expr) => match eval_spec(expr, st) {
                    Err(e) => Err(e),
                    Ok(v) => {
                        let step = step_model(
                            (steps.len() + 1) as nat,
                            "statement_return"@,
                            "returned a value"@,
                            None,
                            line,
                            column,
                        );
                        Ok((st, steps.push(step), v, true))
                    },
                },
            }
        } else {
            Err(n3_status::N3_STATUS_NOT_IMPLEMENTED)
        },
    }
}

/// Runs statements `i..` of a body, stopping after a `Return`: the final
/// state, trace and last value, or the first failure.
pub open spec fn run_body(
    body: Seq<JsonModel>,
    i: int,
    st: Entries,
    steps: Seq<JsonModel>,
    last: JsonModel,
) -> Result<(Entries, Seq<JsonModel>, JsonModel), n3_status>
    decreases body.len() - i,
{
    if i < 0 || i >= body.len() {
        Ok((st, steps, last))
    } else {
        match run_one(body[i], st, steps, last) {
            Err(e) => Err(e),
            Ok((st2, steps2, last2, stop)) => if stop {
                Ok((st2, steps2, last2))
            } else {
                run_body(body, i + 1, st2, steps2, last2)
            },
        }
    }
}

/// The first flow named `name`.
pub open spec fn first_named(flows: Seq<JsonModel>, name: Seq<char>) -> Option<JsonModel>
    decreases flows.len(),
{
    if flows.len() == 0 {
        None
    } else if str_of(field(flows[0], "name"@)) == Some(name) {
        Some(flows[0])
    } else {
        first_named(flows.drop_first(), name)
    }
}

/// The flow to run: the first one of the requested name, or the first one.
pub open spec fn select_spec(flows: Seq<JsonModel>, name: Option<Seq<char>>) -> Option<JsonModel> {
    match name {
        Some(n) => first_named(flows, n),
        None => if flows.len() > 0 {
            Some(flows[0])
        } else {
            None
        },
    }
}

pub open spec fn config_field(config: Option<JsonModel>, key: Seq<char>) -> Option<JsonModel> {
    match config {
        Some(c) => field(c, key),
        None => None,
    }
}

pub open spec fn or_null(o: Option<JsonModel>) -> JsonModel {
    match o {
        Some(v) => v,
        None => JsonModel::Null,
    }
}

/// The result document, keys in lexicographic order.
pub open spec fn result_model(
    steps: Seq<JsonModel>,
    last: JsonModel,
    theme: JsonModel,
    st: Entries,
    source: JsonModel,
) -> JsonModel {
    JsonModel::Object(
        seq![
            ("execution_steps"@, JsonModel::Array(steps)),
            ("last_value"@, last),
            ("runtime_theme"@, theme),
            ("state"@, JsonModel::Object(st)),
            ("theme_source"@, source),
            ("traces"@, JsonModel::Array(seq![])),
        ],
    )
}

/// The outcome of running the selected flow of `root` under `config`.
pub open spec fn run_spec(root: JsonModel, config: Option<JsonModel>) -> Result<JsonModel, n3_status> {
    let wanted = str_of(config_field(config, "flow_name"@));
    match array_of(field(root, "flows"@)) {
        None => Err(n3_status::N3_STATUS_INVALID_ARGUMENT),
        Some(flows) => match select_spec(flows, wanted) {
            None => Err(n3_status::N3_STATUS_INVALID_ARGUMENT),
            Some(flow) => match str_of(field(flow, "name"@)) {
                None => Err(n3_status::N3_STATUS_INVALID_ARGUMENT),
                Some(name) => {
                    let line = int_of(field(flow, "line"@));
                    let column = int_of(field(flow, "column"@));
                    match array_of(field(flow, "body"@)) {
                        None => Err(n3_status::N3_STATUS_INVALID_ARGUMENT),
                        Some(body) => {
                            let start = step_model(
                                1,
                                "flow_start"@,
                                "flow \""@ + name + "\" started"@,
                                None,
                                line,
                                column,
                            );
                            flow_result(
                                run_body(body, 0, seq![], seq![start], JsonModel::Null),
                                name,
                                line,
                                column,
                                or_null(config_field(config, "runtime_theme"@)),
                                or_null(config_field(config, "theme_source"@)),
                            )
                        },
                    }
                },
            },
        },
    }
}

/// The result of a run whose statements ended with `outcome`: a failure
/// passes through; otherwise the trace gets its `flow_end` step.
pub open spec fn flow_result(
    outcome: Result<(Entries, Seq<JsonModel>, JsonModel), n3_status>,
    name: Seq<char>,
    line: Option<int>,
    column: Option<int>,
    theme: JsonModel,
    source: JsonModel,
) -> Result<JsonModel, n3_status> {
    match outcome {
        Err(e) => Err(e),
        Ok((st, steps, last)) => {
            let end = step_model(
                (steps.len() + 1) as nat,
                "flow_end"@,
                "flow \""@ + name + "\" ended"@,
                Some("completed successfully"@),
                line,
                column,
            );
            Ok(result_model(steps.push(end), last, theme, st, source))
        },
    }
}

fn select_flow<'a>(flows: &'a Vec<JsonValue>, name: Option<&str>) -> (r: Result<&'a JsonValue, n3_status>)
    ensures
        match r {
            Ok(f) => select_spec(models_of(flows@), opt_text(name)) == Some(f@),
            Err(e) => e == n3_status::N3_STATUS_INVALID_ARGUMENT && select_spec(
                models_of(flows@),
                opt_text(name),
            ) is None,
        },
{
    let ghost m = models_of(flows@);
    proof {
        lemma_models_of(flows@);
    }
    if let Some(flow_name) = name {
        let mut i: usize = 0;
        assert(m.subrange(0, m.len() as int) =~= m);
        while i < flows.len()
            invariant
                m == models_of(flows@),
                opt_text(name) == Some(flow_name@),
                m.len() == flows.len(),
                forall|k: int| 0 <= k < flows.len() ==> #[trigger] m[k] == model_of(flows@[k]),
                i <= flows.len(),
                first_named(m, flow_name@) == first_named(m.subrange(i as int, m.len() as int), flow_name@),
            decreases flows.len() - i,
        {
            assert(m.subrange(i as int, m.len() as int).drop_first() =~= m.subrange(i + 1, m.len() as int));
            if let Some(candidate) = value_as_string(object_field(&flows[i], "name")) {
                if text_eq(candidate, flow_name) {
                    return Ok(&flows[i]);
                }
            }
            i += 1;
        }
        return Err(n3_status::N3_STATUS_INVALID_ARGUMENT);
    }
    if flows.len() == 0 {
        return Err(n3_status::N3_STATUS_INVALID_ARGUMENT);
    }
    Ok(&flows[0])
}

fn flow_message(name: &str, tail: &str) -> (r: String)
    ensures
        r@ == "flow \""@ + name@ + tail@,
{
    let mut msg = owned("flow \"");
    msg.append(name);
    msg.append(tail);
    msg
}

fn config_value<'a>(config: Option<&'a JsonValue>, key: &str) -> (r: Option<&'a JsonValue>)
    ensures
        opt_model(r) == config_field(opt_model(config), key@),
{
    match config {
        Some(c) => object_field(c, key),
        None => None,
    }
}

fn copy_or_null(v: Option<&JsonValue>) -> (r: JsonValue)
    ensures
        r@ == or_null(opt_model(v)),
{
    match v {
        Some(x) => x.deep_copy(),
        None => JsonValue::Null,
    }
}

/// Runs one statement of a body: `Ok(true)` when it was a `Return`.
fn run_statement(
    stmt: &JsonValue,
    state: &mut Vec<(String, JsonValue)>,
    steps: &mut Vec<JsonValue>,
    last_value: &mut JsonValue,
) -> (r: Result<bool, n3_status>)
    ensures
        ({
            let one = run_one(stmt@, entry_models(old(state)@), models_of(old(steps)@), old(last_value)@);
            match r {
                Ok(returned) => one == Ok::<(Entries, Seq<JsonModel>, JsonModel, bool), n3_status>(
                    (entry_models(final(state)@), models_of(final(steps)@), final(last_value)@, returned),
                ),
                Err(e) => one == Err::<(Entries, Seq<JsonModel>, JsonModel, bool), n3_status>(e),
            }
        }),
{
    proof {
        reveal_strlit("Set");
        reveal_strlit("Return");
        lemma_models_of(steps@);
    }
    let stmt_type = match value_as_string(object_field(stmt, "type")) {
        Some(t) => t,
        None => {
            return Err(n3_status::N3_STATUS_INVALID_ARGUMENT);
        },
    };
    let line = value_as_i64(object_field(stmt, "line"));
    let column = value_as_i64(object_field(stmt, "column"));
    if text_eq(stmt_type, "Set") {
        let target = match object_field(stmt, "target") {
            Some(t) => t,
            None => {
                return Err(n3_status::N3_STATUS_INVALID_ARGUMENT);
            },
        };
        let target_path = state_path(target)?;
        let expr = match object_field(stmt, "expression") {
            Some(e) => e,
            None => {
                return Err(n3_status::N3_STATUS_INVALID_ARGUMENT);
            },
        };
        let value = eval_expr(expr, state)?;
        let stored = value.deep_copy();
        set_state_path(state, &target_path, stored)?;
        let mut what = owned("set state.");
        let joined = join_path(&target_path);
        what.append(joined.as_str());
        record_step(steps, "statement_set", what, None, line, column);
        *last_value = value;
        Ok(false)
    } else if text_eq(stmt_type, "Return") {
        let expr = match object_field(stmt, "expression") {
            Some(e) => e,
            None => {
                return Err(n3_status::N3_STATUS_INVALID_ARGUMENT);
            },
        };
        let value = eval_expr(expr, state)?;
        record_step(steps, "statement_return", owned("returned a value"), None, line, column);
        *last_value = value;
        Ok(true)
    } else {
        Err(n3_status::N3_STATUS_NOT_IMPLEMENTED)
    }
}

/// Runs the selected flow of a decoded program: the result document, or the
/// failure with no trace.
pub fn run_flow(root: &JsonValue, config: Option<&JsonValue>) -> (r: Result<JsonValue, n3_status>)
    ensures
        match r {
            Ok(v) => run_spec(root@, opt_model(config)) == Ok::<JsonModel, n3_status>(v@),
            Err(e) => run_spec(root@, opt_model(config)) == Err::<JsonModel, n3_status>(e),
        },
{
    let flow_name = value_as_string(config_value(config, "flow_name"));
    let runtime_theme = copy_or_null(config_value(config, "runtime_theme"));
    let theme_source = copy_or_null(config_value(config, "theme_source"));
    let flows = match value_as_array(object_field(root, "flows")) {
        Some(f) => f,
        None => {
            return Err(n3_status::N3_STATUS_INVALID_ARGUMENT);
        },
    };
    let flow = select_flow(flows, flow_name)?;
    let name = match value_as_string(object_field(flow, "name")) {
        Some(n) => n,
        None => {
            return Err(n3_status::N3_STATUS_INVALID_ARGUMENT);
        },
    };
    let flow_line = value_as_i64(object_field(flow, "line"));
    let flow_column = value_as_i64(object_field(flow, "column"));
    let body = match value_as_array(object_field(flow, "body")) {
        Some(b) => b,
        None => {
            return Err(n3_status::N3_STATUS_INVALID_ARGUMENT);
        },
    };
    let ghost b = models_of(body@);
    proof {
        lemma_models_of(body@);
    }
    let mut state: Vec<(String, JsonValue)> = Vec::new();
    let mut steps: Vec<JsonValue> = Vec::new();
    record_step(&mut steps, "flow_start", flow_message(name, "\" started"), None, flow_line, flow_column);
    let mut last_value = JsonValue::Null;
    let ghost start = models_of(steps@);
    let ghost total = run_body(b, 0, seq![], start, JsonModel::Null);
    assert(entry_models(state@) =~= Seq::<(Seq<char>, JsonModel)>::empty());
    let mut i: usize = 0;
    let mut returned = false;
    while i < body.len() && !returned
        invariant
            b == models_of(body@),
            b.len() == body.len(),
            forall|k: int| 0 <= k < body.len() ==> #[trigger] b[k] == model_of(body@[k]),
            i <= body.len(),
            returned ==> total == Ok::<(Entries, Seq<JsonModel>, JsonModel), n3_status>(
                (entry_models(state@), models_of(steps@), last_value@),
            ),
            !returned ==> total == run_body(b, i as int, entry_models(state@), models_of(steps@), last_value@),
            run_spec(root@, opt_model(config)) == flow_result(
                total,
                name@,
                opt_int(flow_line),
                opt_int(flow_column),
                runtime_theme@,
                theme_source@,
            ),
        decreases body.len() - i,
    {
        returned = run_statement(&body[i], &mut state, &mut steps, &mut last_value)?;
        i += 1;
    }
    assert(total == Ok::<(Entries, Seq<JsonModel>, JsonModel), n3_status>(
        (entry_models(state@), models_of(steps@), last_value@),
    ));
    proof {
        lemma_models_of(steps@);
    }
    record_step(
        &mut steps,
        "flow_end",
        flow_message(name, "\" ended"),
        Some("completed successfully"),
        flow_line,
        flow_column,
    );
    let mut output: Vec<(String, JsonValue)> = Vec::new();
    output.push((owned("execution_steps"), JsonValue::Array(steps)));
    output.push((owned("last_value"), last_value));
    output.push((owned("runtime_theme"), runtime_theme));
    output.push((owned("state"), JsonValue::Object(state)));
    output.push((owned("theme_source"), theme_source));
    output.push((owned("traces"), JsonValue::Array(Vec::new())));
    proof {
        let traces: Seq<JsonValue> = output@[5].1->Array_0@;
        assert(models_of(traces) =~= Seq::<JsonModel>::empty());
        let expected = run_spec(root@, opt_model(config))->Ok_0;
        lemma_entries_eq(output@, expected->Object_0);
    }
    Ok(JsonValue::Object(output))
}

// ---------------------------------------------------------------- entry

/// A configuration text that holds only white space counts as absent.
pub open spec fn blank_text(t: Seq<char>) -> bool {
    blank_end(t, 0) >= t.len()
}

/// The decoded configuration: absent, or the value of a non-blank text.
pub open spec fn config_spec(config: Option<Seq<char>>) -> Result<Option<JsonModel>, n3_status> {
    match config {
        None => Ok(None),
        Some(t) => if blank_text(t) {
            Ok(None)
        } else {
            match decode(t) {
                Some(c) => Ok(Some(c)),
                None => Err(n3_status::N3_STATUS_INVALID_ARGUMENT),
            }
        },
    }
}

/// The JSON text that `execute_ir` returns, or its failure.
pub open spec fn execute_spec(ir: Seq<char>, config: Option<Seq<char>>) -> Result<Seq<char>, n3_status> {
    match decode(ir) {
        None => Err(n3_status::N3_STATUS_INVALID_ARGUMENT),
        Some(root) => match config_spec(config) {
            Err(e) => Err(e),
            Ok(c) => match run_spec(root, c) {
                Err(e) => Err(e),
                Ok(v) => Ok(json_text(v)),
            },
        },
    }
}

fn is_blank(text: &str) -> (r: bool)
    ensures
        r == blank_text(text@),
{
    let chars = chars_of(text);
    let mut i: usize = 0;
    while i < chars.len() && is_whitespace(chars[i])
        invariant
            chars@ == text@,
            i <= chars.len(),
            blank_end(text@, 0) == blank_end(text@, i as int),
        decreases chars.len() - i,
    {
        i += 1;
    }
    i >= chars.len()
}

/// Runs a flow of the program `ir_json` under the optional configuration
/// `config_json` (fields `flow_name`, `runtime_theme`, `theme_source`), and
/// returns the result document as UTF-8 JSON.
pub fn execute_ir(ir_json: &str, config_json: Option<&str>) -> (r: Result<Vec<u8>, n3_status>)
    ensures
        match r {
            Ok(bytes) => execute_spec(ir_json@, opt_text(config_json)) is Ok && bytes@ == encode_utf8(
                execute_spec(ir_json@, opt_text(config_json))->Ok_0,
            ),
            Err(e) => execute_spec(ir_json@, opt_text(config_json)) == Err::<Seq<char>, n3_status>(e),
        },
{
    let root = match parse_json(ir_json) {
        Ok(v) => v,
        Err(_) => {
            return Err(n3_status::N3_STATUS_INVALID_ARGUMENT);
        },
    };
    let config = match config_json {
        Some(text) => if is_blank(text) {
            None
        } else {
            match parse_json(text) {
                Ok(v) => Some(v),
                Err(_) => {
                    return Err(n3_status::N3_STATUS_INVALID_ARGUMENT);
                },
            }
        },
        None => None,
    };
    let ghost cfg = match &config {
        Some(v) => Some(v@),
        None => None,
    };
    assert(config_spec(opt_text(config_json)) == Ok::<Option<JsonModel>, n3_status>(cfg));
    let result = match &config {
        Some(c) => run_flow(&root, Some(c)),
        None => run_flow(&root, None),
    };
    let output = result?;
    let json = json_string(&output);
    Ok(json.as_str().as_bytes_vec())
}

// ---------------------------------------------------------------- laws

proof fn lemma_first_named_none(flows: Seq<JsonModel>, name: Seq<char>)
    requires
        forall|i: int| 0 <= i < flows.len() ==> str_of(field(#[trigger] flows[i], "name"@)) != Some(name),
    ensures
        first_named(flows, name) is None,
    decreases flows.len(),
{
    if flows.len() > 0 {
        assert forall|i: int| 0 <= i < flows.len() - 1 implies str_of(
            field(#[trigger] flows.drop_first()[i], "name"@),
        ) != Some(name) by {
            assert(flows.drop_first()[i] == flows[i + 1]);
        }
        lemma_first_named_none(flows.drop_first(), name);
    }
}

/// A run fails as invalid input when no flow can be selected: the requested
/// `flow_name` names none of the flows, or no name is requested and the
/// `flows` array is empty, whatever the other fields hold.
pub proof fn lemma_unselectable_flow_is_invalid(root: JsonModel, config: Option<JsonModel>)
    requires
        array_of(field(root, "flows"@)) is Some,
        ({
            let flows = array_of(field(root, "flows"@))->0;
            match str_of(config_field(config, "flow_name"@)) {
                Some(n) => forall|i: int| 0 <= i < flows.len() ==> str_of(field(#[trigger] flows[i], "name"@)) != Some(n),
                None => flows.len() == 0,
            }
        }),
    ensures
        run_spec(root, config) == Err::<JsonModel, n3_status>(n3_status::N3_STATUS_INVALID_ARGUMENT),
{
    let flows = array_of(field(root, "flows"@))->0;
    if let Some(n) = str_of(config_field(config, "flow_name"@)) {
        lemma_first_named_none(flows, n);
    }
}

/// An empty `flows` array fails the run as invalid input, whether or not a
/// flow name is requested.
pub proof fn lemma_empty_flows_is_invalid(root: JsonModel, config: Option<JsonModel>)
    requires
        array_of(field(root, "flows"@)) == Some(Seq::<JsonModel>::empty()),
    ensures
        run_spec(root, config) == Err::<JsonModel, n3_status>(n3_status::N3_STATUS_INVALID_ARGUMENT),
{
    if let Some(n) = str_of(config_field(config, "flow_name"@)) {
        lemma_first_named_none(Seq::<JsonModel>::empty(), n);
    }
}

/// Reaching a statement whose tag is neither `Set` nor `Return` fails the
/// rest of the body as unsupported: no further step, and so no `flow_end`.
pub proof fn lemma_unsupported_statement(
    body: Seq<JsonModel>,
    i: int,
    st: Entries,
    steps: Seq<JsonModel>,
    last: JsonModel,
)
    requires
        0 <= i < body.len(),
        str_of(field(body[i], "type"@)) is Some,
        str_of(field(body[i], "type"@))->0 != "Set"@,
        str_of(field(body[i], "type"@))->0 != "Return"@,
    ensures
        run_body(body, i, st, steps, last) == Err::<(Entries, Seq<JsonModel>, JsonModel), n3_status>(
            n3_status::N3_STATUS_NOT_IMPLEMENTED,
        ),
{
}

/// A selected flow whose first statement is unsupported fails the whole run
/// as unsupported, and the failure carries no trace.
pub proof fn lemma_unsupported_first_statement(root: JsonModel, config: Option<JsonModel>)
    requires
        array_of(field(root, "flows"@)) is Some,
        select_spec(array_of(field(root, "flows"@))->0, str_of(config_field(config, "flow_name"@))) is Some,
        ({
            let flow = select_spec(array_of(field(root, "flows"@))->0, str_of(config_field(config, "flow_name"@)))->0;
            &&& str_of(field(flow, "name"@)) is Some
            &&& array_of(field(flow, "body"@)) is Some
            &&& array_of(field(flow, "body"@))->0.len() > 0
            &&& str_of(field(array_of(field(flow, "body"@))->0[0], "type"@)) is Some
            &&& str_of(field(array_of(field(flow, "body"@))->0[0], "type"@))->0 != "Set"@
            &&& str_of(field(array_of(field(flow, "body"@))->0[0], "type"@))->0 != "Return"@
        }),
    ensures
        run_spec(root, config) == Err::<JsonModel, n3_status>(n3_status::N3_STATUS_NOT_IMPLEMENTED),
{
}

} // verus!
