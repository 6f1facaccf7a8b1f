use vstd::prelude::*;
use crate::domain::action::{Action, ActionKind};
use crate::text::{chars_of, contains_chars, contains_text, occurs_at, replace_all, replace_text, shares_no_char, string_from_chars, str_is, to_ascii_upper, ascii_upper, lemma_replace_absent, lemma_replace_creates_nothing};

verus! {

/// What replaces a secret in exported history.
pub open spec fn redacted_text() -> Seq<char> {
    "<redacted>"@
}

/// A variable or field name whose value is secret: in ASCII upper case it contains
/// `API_KEY`, `TOKEN`, `SECRET`, `PASSWORD` or `AUTHORIZATION`.
pub open spec fn sensitive(key: Seq<char>) -> bool {
    let u = key.map_values(|c: char| ascii_upper(c));
    ||| contains_text(u, "API_KEY"@)
    ||| contains_text(u, "TOKEN"@)
    ||| contains_text(u, "SECRET"@)
    ||| contains_text(u, "PASSWORD"@)
    ||| contains_text(u, "AUTHORIZATION"@)
}

/// Whether the value of `key` is secret.
pub fn is_sensitive_key(key: &str) -> (res: bool)
    ensures
        res == sensitive(key@),
{
    let upper = to_ascii_upper(&chars_of(key));
    contains_chars(&upper, &chars_of("API_KEY")) || contains_chars(&upper, &chars_of("TOKEN"))
        || contains_chars(&upper, &chars_of("SECRET")) || contains_chars(&upper, &chars_of("PASSWORD"))
        || contains_chars(&upper, &chars_of("AUTHORIZATION"))
}

/// The values that redacting `a` hides: the value of a secret variable that is set, unless
/// it is empty or already redacted.
pub open spec fn hidden_value(a: Action) -> Seq<Seq<char>> {
    match a.kind {
        ActionKind::SetEnvironment { key, value } => if sensitive(key@) && value@.len() > 0 && value@
            != redacted_text() {
            seq![value@]
        } else {
            Seq::empty()
        },
        _ => Seq::empty(),
    }
}

/// The secret values of `actions`, in order.
pub open spec fn hidden_values(actions: Seq<Action>) -> Seq<Seq<char>>
    decreases actions.len(),
{
    if actions.len() == 0 {
        Seq::empty()
    } else {
        hidden_values(actions.drop_last()) + hidden_value(actions.last())
    }
}

/// `b` is `a` with the value of a secret variable replaced by the redaction mark.
pub open spec fn redacted_action(a: Action, b: Action) -> bool {
    &&& b.id == a.id
    &&& b.original_order == a.original_order
    &&& b.cwd_before == a.cwd_before
    &&& b.replayable == a.replayable
    &&& b.note == a.note
    &&& b.result == a.result
    &&& match a.kind {
        ActionKind::SetEnvironment { key, value } => if sensitive(key@) {
            b.kind matches ActionKind::SetEnvironment { key: k, value: v } && k == key && v@ == redacted_text()
        } else {
            b.kind == a.kind
        },
        _ => b.kind == a.kind,
    }
}

/// Replaces the value of every secret variable set by `actions` with the redaction mark,
/// and returns the values so hidden (without empty or already redacted ones), in order.
pub fn redact_environment(actions: &mut Vec<Action>) -> (secrets: Vec<String>)
    ensures
        final(actions)@.len() == old(actions)@.len(),
        forall|i: int| 0 <= i < old(actions)@.len() ==> redacted_action(old(actions)@[i], #[trigger] final(actions)@[i]),
        secrets@.map_values(|s: String| s@) == hidden_values(old(actions)@),
{
    let ghost start = actions@;
    let mut secrets: Vec<String> = Vec::new();
    let mut i: usize = 0;
    while i < actions.len()
        invariant
            actions@.len() == start.len(),
            i <= start.len(),
            forall|j: int| 0 <= j < i ==> redacted_action(start[j], #[trigger] actions@[j]),
            forall|j: int| i <= j < start.len() ==> actions@[j] == start[j],
            secrets@.map_values(|s: String| s@) == hidden_values(start.take(i as int)),
        decreases start.len() - i,
    {
        let ghost before = secrets@;
        assert(start.take(i + 1).drop_last() =~= start.take(i as int));
        assert(start.take(i + 1).last() == start[i as int]);
        let secret_key = match &actions[i].kind {
            ActionKind::SetEnvironment { key, value } => {
                if is_sensitive_key(key.as_str()) {
                    if chars_of(value.as_str()).len() > 0 && !str_is(value.as_str(), "<redacted>") {
                        secrets.push(value.clone());
                    }
                    Some(key.clone())
                } else {
                    None
                }
            },
            _ => None,
        };
        match secret_key {
            Some(key) => {
                let mut a = actions.remove(i);
                a.kind = ActionKind::SetEnvironment { key, value: String::from_str("<redacted>") };
                actions.insert(i, a);
            },
            None => {},
        }
        assert(secrets@.map_values(|s: String| s@) =~= hidden_values(start.take(i + 1)));
        i += 1;
    }
    assert(start.take(start.len() as int) =~= start);
    secrets
}

/// `text` with each non-empty secret, in order, replaced by the redaction mark.
pub open spec fn redact_all(text: Seq<char>, secrets: Seq<Seq<char>>) -> Seq<char>
    decreases secrets.len(),
{
    if secrets.len() == 0 {
        text
    } else {
        let rest = secrets.drop_last();
        let before = redact_all(text, rest);
        if secrets.last().len() == 0 { before } else { replace_all(before, secrets.last(), redacted_text()) }
    }
}

/// `text` with each non-empty secret replaced by the redaction mark.
pub fn redact_text(text: &str, secrets: &Vec<String>) -> (res: String)
    ensures
        res@ == redact_all(text@, secrets@.map_values(|s: String| s@)),
{
    let ghost all = secrets@.map_values(|s: String| s@);
    let mut current = chars_of(text);
    let mark = chars_of("<redacted>");
    let mut i: usize = 0;
    while i < secrets.len()
        invariant
            i <= secrets@.len(),
            all == secrets@.map_values(|s: String| s@),
            mark@ == redacted_text(),
            current@ == redact_all(text@, all.take(i as int)),
        decreases secrets.len() - i,
    {
        assert(all.take(i + 1).drop_last() =~= all.take(i as int));
        assert(all.take(i + 1).last() == secrets@[i as int]@);
        let secret = chars_of(secrets[i].as_str());
        if secret.len() > 0 {
            current = replace_text(&current, &secret, &mark);
        }
        i += 1;
    }
    assert(all.take(secrets@.len() as int) =~= all);
    string_from_chars(&current)
}

proof fn lemma_hidden_values_empty(b: Seq<Action>)
    requires
        forall|i: int| 0 <= i < b.len() ==> #[trigger] hidden_value(b[i]) == Seq::<Seq<char>>::empty(),
    ensures
        hidden_values(b) == Seq::<Seq<char>>::empty(),
    decreases b.len(),
{
    if b.len() > 0 {
        assert forall|i: int| 0 <= i < b.len() - 1 implies #[trigger] hidden_value(b.drop_last()[i]) == Seq::<Seq<char>>::empty() by {
            assert(b.drop_last()[i] == b[i]);
        }
        lemma_hidden_values_empty(b.drop_last());
        assert(hidden_value(b.last()) == Seq::<Seq<char>>::empty());
    }
}

/// Redacting again hides nothing more: a redacted history holds no secret value, and
/// redacting it leaves each action as it is.
pub proof fn redaction_is_idempotent(a: Seq<Action>, b: Seq<Action>)
    requires
        a.len() == b.len(),
        forall|i: int| 0 <= i < a.len() ==> redacted_action(a[i], #[trigger] b[i]),
    ensures
        hidden_values(b) == Seq::<Seq<char>>::empty(),
        forall|i: int| 0 <= i < b.len() ==> redacted_action(#[trigger] b[i], b[i]),
{
    assert forall|i: int| 0 <= i < b.len() implies #[trigger] hidden_value(b[i]) == Seq::<Seq<char>>::empty() by {
        assert(redacted_action(a[i], b[i]));
    }
    lemma_hidden_values_empty(b);
    assert forall|i: int| 0 <= i < b.len() implies redacted_action(#[trigger] b[i], b[i]) by {
        assert(redacted_action(a[i], b[i]));
    }
}

/// A JSON value of exported history: what redaction walks through.
#[derive(Debug)]
pub enum JsonValue {
    Null,
    Bool(bool),
    /// A number, in its JSON text.
    Number(String),
    Text(String),
    Array(Vec<JsonValue>),
    /// An object's members, in order.
    Object(Vec<(String, JsonValue)>),
}

/// `b` is `a` redacted: every text has each non-empty secret replaced by the redaction
/// mark, the value of every member whose name is secret is the redaction mark itself, and
/// nothing else changes.
pub open spec fn json_redacted(a: JsonValue, b: JsonValue, secrets: Seq<Seq<char>>) -> bool
    decreases a,
{
    match a {
        JsonValue::Text(s) => b matches JsonValue::Text(t) && t@ == redact_all(s@, secrets),
        JsonValue::Array(xs) => b matches JsonValue::Array(ys) && ys@.len() == xs@.len() && forall|i: int|
            0 <= i < xs@.len() ==> json_redacted(#[trigger] xs@[i], ys@[i], secrets),
        JsonValue::Object(es) => b matches JsonValue::Object(fs) && fs@.len() == es@.len() && forall|i: int|
            0 <= i < es@.len() ==> {
                &&& (#[trigger] fs@[i]).0@ == es@[i].0@
                &&& if sensitive(es@[i].0@) {
                    fs@[i].1 matches JsonValue::Text(t) && t@ == redacted_text()
                } else {
                    json_redacted(es@[i].1, fs@[i].1, secrets)
                }
            },
        JsonValue::Null => b matches JsonValue::Null,
        JsonValue::Bool(x) => b matches JsonValue::Bool(y) && x == y,
        JsonValue::Number(n) => b matches JsonValue::Number(m) && m@ == n@,
    }
}

/// `value` with each non-empty secret replaced by the redaction mark in every text, and the
/// value of every member with a secret name replaced by the redaction mark.
pub fn redact_json(value: &JsonValue, secrets: &Vec<String>) -> (res: JsonValue)
    ensures
        json_redacted(*value, res, secrets@.map_values(|s: String| s@)),
    decreases value,
{
    match value {
        JsonValue::Null => JsonValue::Null,
        JsonValue::Bool(x) => JsonValue::Bool(*x),
        JsonValue::Number(n) => JsonValue::Number(crate::text::copy_string(n)),
        JsonValue::Text(s) => JsonValue::Text(redact_text(s.as_str(), secrets)),
        JsonValue::Array(xs) => {
            let mut ys: Vec<JsonValue> = Vec::new();
            let mut i: usize = 0;
            while i < xs.len()
                invariant
                    *value == JsonValue::Array(*xs),
                    i <= xs@.len(),
                    ys@.len() == i,
                    forall|k: int| 0 <= k < i ==> json_redacted(#[trigger] xs@[k], ys@[k], secrets@.map_values(|s: String| s@)),
                decreases xs.len() - i,
            {
                proof {
                    assert((*value)->Array_0 == *xs);
                    assert(decreases_to!(*value => (*value)->Array_0));
                    assert(decreases_to!(*xs => xs@));
                    assert(decreases_to!(xs@ => xs@[i as int]));
                    assert(decreases_to!(*value => xs@[i as int]));
                }
                let y = redact_json(&xs[i], secrets);
                ys.push(y);
                i += 1;
            }
            JsonValue::Array(ys)
        },
        JsonValue::Object(es) => {
            let mut fs: Vec<(String, JsonValue)> = Vec::new();
            let mut i: usize = 0;
            while i < es.len()
                invariant
                    *value == JsonValue::Object(*es),
                    i <= es@.len(),
                    fs@.len() == i,
                    forall|k: int| 0 <= k < i ==> {
                        &&& (#[trigger] fs@[k]).0@ == es@[k].0@
                        &&& if sensitive(es@[k].0@) {
                            fs@[k].1 matches JsonValue::Text(t) && t@ == redacted_text()
                        } else {
                            json_redacted(es@[k].1, fs@[k].1, secrets@.map_values(|s: String| s@))
                        }
                    },
                decreases es.len() - i,
            {
                let key = crate::text::copy_string(&es[i].0);
                let redacted = if is_sensitive_key(es[i].0.as_str()) {
                    JsonValue::Text(String::from_str("<redacted>"))
                } else {
                    proof {
                        assert((*value)->Object_0 == *es);
                        assert(decreases_to!(*value => (*value)->Object_0));
                        assert(decreases_to!(*es => es@));
                        assert(decreases_to!(es@ => es@[i as int]));
                        assert(decreases_to!(es@[i as int] => es@[i as int].1));
                        assert(decreases_to!(*value => es@[i as int].1));
                    }
                    redact_json(&es[i].1, secrets)
                };
                fs.push((key, redacted));
                i += 1;
            }
            JsonValue::Object(fs)
        },
    }
}

/// Every non-empty secret shares no character with the redaction mark.
pub open spec fn secrets_apart_from_mark(secrets: Seq<Seq<char>>) -> bool {
    forall|i: int| 0 <= i < secrets.len() && (#[trigger] secrets[i]).len() > 0 ==> shares_no_char(secrets[i], redacted_text())
}

proof fn lemma_mark_nonempty()
    ensures
        redacted_text().len() > 0,
{
    reveal_strlit("<redacted>");
}

proof fn lemma_apart_not_contained(r: Seq<char>, q: Seq<char>)
    requires
        q.len() > 0,
        shares_no_char(q, r),
    ensures
        !contains_text(r, q),
{
    if contains_text(r, q) {
        let i = choose|i: int| #[trigger] occurs_at(r, q, i);
        assert(r.subrange(i, i + q.len())[0] == q[0]);
        assert(r[i] == q[0]);
        assert(r.contains(q[0]));
    }
}

/// No secret that shares no character with the redaction mark survives redaction: once
/// every secret has been replaced in turn, the text contains none of them.
pub proof fn redaction_leaves_no_secret(text: Seq<char>, secrets: Seq<Seq<char>>, i: int)
    requires
        0 <= i < secrets.len(),
        secrets[i].len() > 0,
        shares_no_char(secrets[i], redacted_text()),
    ensures
        !contains_text(redact_all(text, secrets), secrets[i]),
    decreases secrets.len(),
{
    lemma_mark_nonempty();
    let rest = secrets.drop_last();
    let before = redact_all(text, rest);
    let last = secrets.last();
    if i == secrets.len() - 1 {
        lemma_replace_creates_nothing(before, last, redacted_text(), last);
    } else {
        assert(rest[i] == secrets[i]);
        redaction_leaves_no_secret(text, rest, i);
        if last.len() > 0 {
            lemma_replace_creates_nothing(before, last, redacted_text(), secrets[i]);
        }
    }
}

proof fn lemma_redact_all_absent(x: Seq<char>, secrets: Seq<Seq<char>>)
    requires
        forall|i: int| 0 <= i < secrets.len() && (#[trigger] secrets[i]).len() > 0 ==> !contains_text(x, secrets[i]),
    ensures
        redact_all(x, secrets) == x,
    decreases secrets.len(),
{
    if secrets.len() > 0 {
        let rest = secrets.drop_last();
        assert forall|i: int| 0 <= i < rest.len() && (#[trigger] rest[i]).len() > 0 implies !contains_text(x, rest[i]) by {
            assert(rest[i] == secrets[i]);
        }
        lemma_redact_all_absent(x, rest);
        if secrets.last().len() > 0 {
            assert(secrets[secrets.len() - 1] == secrets.last());
            lemma_replace_absent(x, secrets.last(), redacted_text());
        }
    }
}

/// Redacting a text twice gives what redacting it once gave, when the secrets share no
/// character with the redaction mark.
pub proof fn text_redaction_is_idempotent(text: Seq<char>, secrets: Seq<Seq<char>>)
    requires
        secrets_apart_from_mark(secrets),
    ensures
        redact_all(redact_all(text, secrets), secrets) == redact_all(text, secrets),
{
    let once = redact_all(text, secrets);
    assert forall|i: int| 0 <= i < secrets.len() && (#[trigger] secrets[i]).len() > 0 implies !contains_text(once, secrets[i]) by {
        redaction_leaves_no_secret(text, secrets, i);
    }
    lemma_redact_all_absent(once, secrets);
}

/// No text anywhere in `v` (the values of arrays and members, at any depth) contains `q`.
pub open spec fn json_texts_free_of(v: JsonValue, q: Seq<char>) -> bool
    decreases v,
{
    match v {
        JsonValue::Text(s) => !contains_text(s@, q),
        JsonValue::Array(xs) => forall|i: int| 0 <= i < xs@.len() ==> json_texts_free_of(#[trigger] xs@[i], q),
        JsonValue::Object(es) => forall|i: int| 0 <= i < es@.len() ==> json_texts_free_of((#[trigger] es@[i]).1, q),
        _ => true,
    }
}

/// No secret that shares no character with the redaction mark survives anywhere in
/// redacted JSON: no text value, at any depth, contains it.
pub proof fn redacted_json_leaves_no_secret(a: JsonValue, b: JsonValue, secrets: Seq<Seq<char>>, k: int)
    requires
        json_redacted(a, b, secrets),
        0 <= k < secrets.len(),
        secrets[k].len() > 0,
        shares_no_char(secrets[k], redacted_text()),
    ensures
        json_texts_free_of(b, secrets[k]),
    decreases a,
{
    let q = secrets[k];
    match a {
        JsonValue::Text(s) => {
            redaction_leaves_no_secret(s@, secrets, k);
        },
        JsonValue::Array(xs) => {
            let ys = b->Array_0;
            assert forall|i: int| 0 <= i < ys@.len() implies json_texts_free_of(#[trigger] ys@[i], q) by {
                assert(decreases_to!(a => a->Array_0));
                assert(decreases_to!(xs => xs@));
                assert(decreases_to!(xs@ => xs@[i]));
                redacted_json_leaves_no_secret(xs@[i], ys@[i], secrets, k);
            }
        },
        JsonValue::Object(es) => {
            let fs = b->Object_0;
            assert forall|i: int| 0 <= i < fs@.len() implies json_texts_free_of((#[trigger] fs@[i]).1, q) by {
                assert(fs@[i].0@ == es@[i].0@);
                if sensitive(es@[i].0@) {
                    lemma_apart_not_contained(redacted_text(), q);
                } else {
                    assert(decreases_to!(a => a->Object_0));
                    assert(decreases_to!(es => es@));
                    assert(decreases_to!(es@ => es@[i]));
                    assert(decreases_to!(es@[i] => es@[i].1));
                    redacted_json_leaves_no_secret(es@[i].1, fs@[i].1, secrets, k);
                }
            }
        },
        _ => {},
    }
}

/// Redacted JSON is left as it is by a second redaction with the same secrets, when they
/// share no character with the redaction mark.
pub proof fn json_redaction_is_idempotent(a: JsonValue, b: JsonValue, secrets: Seq<Seq<char>>)
    requires
        json_redacted(a, b, secrets),
        secrets_apart_from_mark(secrets),
    ensures
        json_redacted(b, b, secrets),
    decreases a,
{
    match a {
        JsonValue::Text(s) => {
            text_redaction_is_idempotent(s@, secrets);
        },
        JsonValue::Array(xs) => {
            let ys = b->Array_0;
            assert forall|i: int| 0 <= i < ys@.len() implies json_redacted(#[trigger] ys@[i], ys@[i], secrets) by {
                assert(decreases_to!(a => a->Array_0));
                assert(decreases_to!(xs => xs@));
                assert(decreases_to!(xs@ => xs@[i]));
                json_redaction_is_idempotent(xs@[i], ys@[i], secrets);
            }
        },
        JsonValue::Object(es) => {
            let fs = b->Object_0;
            assert forall|i: int| 0 <= i < fs@.len() implies {
                &&& (#[trigger] fs@[i]).0@ == fs@[i].0@
                &&& if sensitive(fs@[i].0@) {
                    fs@[i].1 matches JsonValue::Text(t) && t@ == redacted_text()
                } else {
                    json_redacted(fs@[i].1, fs@[i].1, secrets)
                }
            } by {
                assert(fs@[i].0@ == es@[i].0@);
                if !sensitive(es@[i].0@) {
                    assert(decreases_to!(a => a->Object_0));
                    assert(decreases_to!(es => es@));
                    assert(decreases_to!(es@ => es@[i]));
                    assert(decreases_to!(es@[i] => es@[i].1));
                    json_redaction_is_idempotent(es@[i].1, fs@[i].1, secrets);
                }
            }
        },
        _ => {},
    }
}

} // verus!
