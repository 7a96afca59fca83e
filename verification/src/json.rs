//! A tagged JSON value model.
//!
//! Session logs are line-delimited JSON. The engine keeps each parsed record
//! as a [`JsonValue`], a plain tagged tree whose ghost model [`JsonV`] every
//! contract speaks of. Parsing a line of text and printing a value back are
//! the only operations delegated to the `serde_json` crate, each behind a
//! trusted wrapper; all inspection and rewriting of records is verified.

use vstd::prelude::*;
use crate::text::str_eq;

verus! {

/// One JSON value: the executable representation.
///
/// Numbers keep their decimal text exactly as the parser printed them, so
/// that no floating-point state lives in the tree.
pub enum JsonValue {
    Null,
    Bool(bool),
    Number(String),
    Text(String),
    Array(Vec<JsonValue>),
    Object(Vec<(String, JsonValue)>),
}

/// The ghost model of a JSON value, over character sequences.
pub enum JsonV {
    Null,
    Bool(bool),
    Number(Seq<char>),
    Text(Seq<char>),
    Array(Seq<JsonV>),
    Object(Seq<(Seq<char>, JsonV)>),
}

impl JsonValue {
    /// The ghost model of this value.
    pub open spec fn model(self) -> JsonV
        decreases self,
    {
        match self {
            JsonValue::Null => JsonV::Null,
            JsonValue::Bool(b) => JsonV::Bool(b),
            JsonValue::Number(s) => JsonV::Number(s@),
            JsonValue::Text(s) => JsonV::Text(s@),
            JsonValue::Array(a) => JsonV::Array(model_seq(a@)),
            JsonValue::Object(o) => JsonV::Object(model_fields(o@)),
        }
    }
}

/// The models of a sequence of values, in order.
pub open spec fn model_seq(a: Seq<JsonValue>) -> Seq<JsonV>
    decreases a,
{
    if a.len() == 0 {
        Seq::empty()
    } else {
        model_seq(a.subrange(0, a.len() - 1)).push(a[a.len() - 1].model())
    }
}

/// The models of a sequence of object fields, in order.
pub open spec fn model_fields(o: Seq<(String, JsonValue)>) -> Seq<(Seq<char>, JsonV)>
    decreases o,
{
    if o.len() == 0 {
        Seq::empty()
    } else {
        model_fields(o.subrange(0, o.len() - 1)).push(
            (o[o.len() - 1].0@, o[o.len() - 1].1.model()),
        )
    }
}

/// `model_seq` maps each element to its model.
pub broadcast proof fn lemma_model_seq_props(a: Seq<JsonValue>)
    ensures
        #[trigger] model_seq(a).len() == a.len(),
        forall|i: int| 0 <= i < a.len() ==> #[trigger] model_seq(a)[i] == a[i].model(),
    decreases a.len(),
{
    if a.len() > 0 {
        let sub = a.subrange(0, a.len() - 1);
        lemma_model_seq_props(sub);
        assert forall|i: int| 0 <= i < a.len() implies #[trigger] model_seq(a)[i] == a[i].model() by {
            if i < a.len() - 1 {
                assert(sub[i] == a[i]);
                assert(model_seq(sub)[i] == sub[i].model());
            }
        }
    }
}

/// `model_fields` maps each field to its key view and value model.
pub broadcast proof fn lemma_model_fields_props(o: Seq<(String, JsonValue)>)
    ensures
        #[trigger] model_fields(o).len() == o.len(),
        forall|i: int|
            0 <= i < o.len() ==> #[trigger] model_fields(o)[i] == (o[i].0@, o[i].1.model()),
    decreases o.len(),
{
    if o.len() > 0 {
        let sub = o.subrange(0, o.len() - 1);
        lemma_model_fields_props(sub);
        assert forall|i: int|
            0 <= i < o.len() implies #[trigger] model_fields(o)[i] == (o[i].0@, o[i].1.model()) by {
            if i < o.len() - 1 {
                assert(sub[i] == o[i]);
                assert(model_fields(sub)[i] == (sub[i].0@, sub[i].1.model()));
            }
        }
    }
}

// ---------------------------------------------------------------------------
// Field lookup.
// ---------------------------------------------------------------------------

/// The first index at or after `i` whose key equals `key`, or the length.
pub open spec fn key_idx_from(fields: Seq<(Seq<char>, JsonV)>, key: Seq<char>, i: int) -> int
    decreases fields.len() - i,
{
    if i < 0 || i >= fields.len() {
        fields.len() as int
    } else if fields[i].0 == key {
        i
    } else {
        key_idx_from(fields, key, i + 1)
    }
}

/// The value of the first field named `key`, when the value is an object
/// holding one.
pub open spec fn lookup(v: JsonV, key: Seq<char>) -> Option<JsonV> {
    match v {
        JsonV::Object(fields) => {
            let j = key_idx_from(fields, key, 0);
            if j < fields.len() {
                Some(fields[j].1)
            } else {
                None
            }
        },
        _ => None,
    }
}

/// The text of a value, when it is a string.
pub open spec fn text_of(v: JsonV) -> Option<Seq<char>> {
    match v {
        JsonV::Text(s) => Some(s),
        _ => None,
    }
}

/// The text of the field named `key`, when there is one and it is a string.
pub open spec fn lookup_text(v: JsonV, key: Seq<char>) -> Option<Seq<char>> {
    match lookup(v, key) {
        Some(f) => text_of(f),
        None => None,
    }
}

/// Convenience: the record's `type` discriminator equals the given tag.
pub open spec fn has_type(v: JsonV, tag: Seq<char>) -> bool {
    lookup_text(v, "type"@) == Some(tag)
}

/// The first index at or after `i` of the result lies where the spec says.
proof fn lemma_key_idx_step(fields: Seq<(Seq<char>, JsonV)>, key: Seq<char>, i: int)
    requires
        0 <= i < fields.len(),
        fields[i].0 != key,
    ensures
        key_idx_from(fields, key, i) == key_idx_from(fields, key, i + 1),
{
}

impl JsonValue {
    /// The value of the first field with this key, for object values.
    #[verifier::loop_isolation(false)]
    pub fn get<'a>(&'a self, key: &str) -> (r: Option<&'a JsonValue>)
        ensures
            match r {
                Some(f) => lookup(self.model(), key@) == Some(f.model()),
                None => lookup(self.model(), key@) is None,
            },
    {
        broadcast use lemma_model_seq_props, lemma_model_fields_props;

        match self {
            JsonValue::Object(fields) => {
                let ghost m = model_fields(fields@);
                let mut i: usize = 0;
                while i < fields.len()
                    invariant
                        0 <= i <= fields@.len(),
                        m == model_fields(fields@),
                        key_idx_from(m, key@, 0) == key_idx_from(m, key@, i as int),
                    decreases fields@.len() - i,
                {
                    proof {
                        assert(m[i as int] == (fields@[i as int].0@, fields@[i as int].1.model()));
                    }
                    if str_eq(fields[i].0.as_str(), key) {
                        return Some(&fields[i].1);
                    }
                    proof {
                        lemma_key_idx_step(m, key@, i as int);
                    }
                    i += 1;
                }
                None
            },
            _ => None,
        }
    }

    /// The string slice held by a text value.
    pub fn as_text<'a>(&'a self) -> (r: Option<&'a String>)
        ensures
            match r {
                Some(s) => text_of(self.model()) == Some(s@),
                None => text_of(self.model()) is None,
            },
    {
        match self {
            JsonValue::Text(s) => Some(s),
            _ => None,
        }
    }

    /// The elements of an array value.
    pub fn as_array<'a>(&'a self) -> (r: Option<&'a Vec<JsonValue>>)
        ensures
            match r {
                Some(a) => self.model() == JsonV::Array(model_seq(a@)),
                None => !(self.model() is Array),
            },
    {
        match self {
            JsonValue::Array(a) => Some(a),
            _ => None,
        }
    }

    /// Whether this value is a string.
    pub fn is_text(&self) -> (r: bool)
        ensures
            r == (self.model() is Text),
    {
        match self {
            JsonValue::Text(_) => true,
            _ => false,
        }
    }

    /// The text of the field with this key, when present and a string.
    pub fn get_text<'a>(&'a self, key: &str) -> (r: Option<&'a String>)
        ensures
            match r {
                Some(s) => lookup_text(self.model(), key@) == Some(s@),
                None => lookup_text(self.model(), key@) is None,
            },
    {
        match self.get(key) {
            Some(f) => f.as_text(),
            None => None,
        }
    }

    /// Whether the record's `type` field equals the given tag.
    pub fn has_type(&self, tag: &str) -> (r: bool)
        ensures
            r == has_type(self.model(), tag@),
    {
        match self.get_text("type") {
            Some(s) => str_eq(s.as_str(), tag),
            None => false,
        }
    }

    /// A fresh value with the same model.
    #[verifier::loop_isolation(false)]
    pub fn clone_value(&self) -> (r: JsonValue)
        ensures
            r.model() == self.model(),
        decreases self,
    {
        broadcast use lemma_model_seq_props, lemma_model_fields_props;

        match self {
            JsonValue::Null => JsonValue::Null,
            JsonValue::Bool(b) => JsonValue::Bool(*b),
            JsonValue::Number(s) => JsonValue::Number(s.clone()),
            JsonValue::Text(s) => JsonValue::Text(s.clone()),
            JsonValue::Array(a) => {
                let mut out: Vec<JsonValue> = Vec::new();
                let mut i: usize = 0;
                while i < a.len()
                    invariant
                        0 <= i <= a@.len(),
                        out@.len() == i,
                        forall|k: int| 0 <= k < i ==> out@[k].model() == #[trigger] a@[k].model(),
                    decreases a@.len() - i,
                {
                    proof {
                        assert(decreases_to!(*self => *a));
                        assert(decreases_to!(*a => a@));
                        assert(decreases_to!(a@ => a@[i as int]));
                    }
                    out.push(a[i].clone_value());
                    i += 1;
                }
                proof {
                    assert(model_seq(out@) =~= model_seq(a@));
                }
                JsonValue::Array(out)
            },
            JsonValue::Object(o) => {
                let mut out: Vec<(String, JsonValue)> = Vec::new();
                let mut i: usize = 0;
                while i < o.len()
                    invariant
                        0 <= i <= o@.len(),
                        out@.len() == i,
                        forall|k: int|
                            0 <= k < i ==> (#[trigger] out@[k].0)@ == o@[k].0@ && out@[k].1.model()
                                == o@[k].1.model(),
                    decreases o@.len() - i,
                {
                    proof {
                        assert(decreases_to!(*self => *o));
                        assert(decreases_to!(*o => o@));
                        assert(decreases_to!(o@ => o@[i as int]));
                        assert(decreases_to!(o@[i as int] => o@[i as int].1));
                    }
                    let key = o[i].0.clone();
                    let val = o[i].1.clone_value();
                    out.push((key, val));
                    i += 1;
                }
                proof {
                    assert(model_fields(out@) =~= model_fields(o@));
                }
                JsonValue::Object(out)
            },
        }
    }
}

// ---------------------------------------------------------------------------
// Rewriting the `cwd` fields, the session id, and the start timestamp.
// ---------------------------------------------------------------------------

/// Rewrites every string-valued `cwd` field, anywhere in the tree, to `t`.
pub open spec fn rewrite_cwd_spec(v: JsonV, t: Seq<char>) -> JsonV
    decreases v,
{
    match v {
        JsonV::Array(items) => JsonV::Array(rewrite_cwd_seq(items, t)),
        JsonV::Object(fields) => JsonV::Object(rewrite_cwd_fields_spec(fields, t)),
        _ => v,
    }
}

/// `rewrite_cwd_spec` applied to each element.
pub open spec fn rewrite_cwd_seq(items: Seq<JsonV>, t: Seq<char>) -> Seq<JsonV>
    decreases items,
{
    if items.len() == 0 {
        Seq::empty()
    } else {
        rewrite_cwd_seq(items.subrange(0, items.len() - 1), t).push(
            rewrite_cwd_spec(items[items.len() - 1], t),
        )
    }
}

/// One rewritten object field: a string-valued `cwd` key gets the new path,
/// anything else is rewritten recursively.
pub open spec fn rewrite_cwd_field(kv: (Seq<char>, JsonV), t: Seq<char>) -> (Seq<char>, JsonV)
    decreases kv,
{
    if kv.0 == "cwd"@ && kv.1 is Text {
        (kv.0, JsonV::Text(t))
    } else {
        (kv.0, rewrite_cwd_spec(kv.1, t))
    }
}

/// `rewrite_cwd_field` applied to each field.
pub open spec fn rewrite_cwd_fields_spec(fields: Seq<(Seq<char>, JsonV)>, t: Seq<char>) -> Seq<
    (Seq<char>, JsonV),
>
    decreases fields,
{
    if fields.len() == 0 {
        Seq::empty()
    } else {
        rewrite_cwd_fields_spec(fields.subrange(0, fields.len() - 1), t).push(
            rewrite_cwd_field(fields[fields.len() - 1], t),
        )
    }
}

/// Rewrites every string-valued `cwd` field, recursively, to the target path.
#[verifier::loop_isolation(false)]
pub fn rewrite_cwd_fields(v: &JsonValue, target_cwd: &str) -> (r: JsonValue)
    ensures
        r.model() == rewrite_cwd_spec(v.model(), target_cwd@),
    decreases v,
{
    broadcast use lemma_model_seq_props, lemma_model_fields_props;

    match v {
        JsonValue::Null => JsonValue::Null,
        JsonValue::Bool(b) => JsonValue::Bool(*b),
        JsonValue::Number(s) => JsonValue::Number(s.clone()),
        JsonValue::Text(s) => JsonValue::Text(s.clone()),
        JsonValue::Array(a) => {
            let ghost t = target_cwd@;
            let mut out: Vec<JsonValue> = Vec::new();
            let mut i: usize = 0;
            while i < a.len()
                invariant
                    0 <= i <= a@.len(),
                    out@.len() == i,
                    forall|k: int|
                        0 <= k < i ==> out@[k].model() == rewrite_cwd_spec(
                            (#[trigger] a@[k]).model(),
                            t,
                        ),
                decreases a@.len() - i,
            {
                proof {
                    assert(decreases_to!(*v => *a));
                    assert(decreases_to!(*a => a@));
                    assert(decreases_to!(a@ => a@[i as int]));
                }
                out.push(rewrite_cwd_fields(&a[i], target_cwd));
                i += 1;
            }
            proof {
                lemma_rewrite_cwd_seq_props(model_seq(a@), t);
                assert(model_seq(out@) =~= rewrite_cwd_seq(model_seq(a@), t));
            }
            JsonValue::Array(out)
        },
        JsonValue::Object(o) => {
            let ghost t = target_cwd@;
            let mut out: Vec<(String, JsonValue)> = Vec::new();
            let mut i: usize = 0;
            while i < o.len()
                invariant
                    0 <= i <= o@.len(),
                    out@.len() == i,
                    forall|k: int|
                        0 <= k < i ==> ((#[trigger] out@[k].0)@, out@[k].1.model())
                            == rewrite_cwd_field((o@[k].0@, o@[k].1.model()), t),
                decreases o@.len() - i,
            {
                proof {
                    assert(decreases_to!(*v => *o));
                    assert(decreases_to!(*o => o@));
                    assert(decreases_to!(o@ => o@[i as int]));
                    assert(decreases_to!(o@[i as int] => o@[i as int].1));
                }
                let key = o[i].0.clone();
                if str_eq(key.as_str(), "cwd") && o[i].1.is_text() {
                    out.push((key, JsonValue::Text(String::from_str(target_cwd))));
                } else {
                    let val = rewrite_cwd_fields(&o[i].1, target_cwd);
                    out.push((key, val));
                }
                i += 1;
            }
            proof {
                lemma_rewrite_cwd_fields_props(model_fields(o@), t);
                assert(model_fields(out@) =~= rewrite_cwd_fields_spec(model_fields(o@), t));
            }
            JsonValue::Object(out)
        },
    }
}

/// Element-wise description of `rewrite_cwd_seq`.
pub proof fn lemma_rewrite_cwd_seq_props(items: Seq<JsonV>, t: Seq<char>)
    ensures
        rewrite_cwd_seq(items, t).len() == items.len(),
        forall|i: int|
            0 <= i < items.len() ==> #[trigger] rewrite_cwd_seq(items, t)[i] == rewrite_cwd_spec(
                items[i],
                t,
            ),
    decreases items.len(),
{
    if items.len() > 0 {
        let sub = items.subrange(0, items.len() - 1);
        lemma_rewrite_cwd_seq_props(sub, t);
        assert forall|i: int|
            0 <= i < items.len() implies #[trigger] rewrite_cwd_seq(items, t)[i]
            == rewrite_cwd_spec(items[i], t) by {
            if i < items.len() - 1 {
                assert(sub[i] == items[i]);
                assert(rewrite_cwd_seq(sub, t)[i] == rewrite_cwd_spec(sub[i], t));
            }
        }
    }
}

/// Element-wise description of `rewrite_cwd_fields_spec`.
pub proof fn lemma_rewrite_cwd_fields_props(fields: Seq<(Seq<char>, JsonV)>, t: Seq<char>)
    ensures
        rewrite_cwd_fields_spec(fields, t).len() == fields.len(),
        forall|i: int|
            0 <= i < fields.len() ==> #[trigger] rewrite_cwd_fields_spec(fields, t)[i]
                == rewrite_cwd_field(fields[i], t),
    decreases fields.len(),
{
    if fields.len() > 0 {
        let sub = fields.subrange(0, fields.len() - 1);
        lemma_rewrite_cwd_fields_props(sub, t);
        assert forall|i: int|
            0 <= i < fields.len() implies #[trigger] rewrite_cwd_fields_spec(fields, t)[i]
            == rewrite_cwd_field(fields[i], t) by {
            if i < fields.len() - 1 {
                assert(sub[i] == fields[i]);
                assert(rewrite_cwd_fields_spec(sub, t)[i] == rewrite_cwd_field(sub[i], t));
            }
        }
    }
}

/// Every string-valued `cwd` field anywhere in the tree holds exactly `t`.
pub open spec fn all_cwd_eq(v: JsonV, t: Seq<char>) -> bool
    decreases v,
{
    match v {
        JsonV::Array(items) => all_cwd_eq_seq(items, t),
        JsonV::Object(fields) => all_cwd_eq_fields(fields, t),
        _ => true,
    }
}

/// `all_cwd_eq` over every element.
pub open spec fn all_cwd_eq_seq(items: Seq<JsonV>, t: Seq<char>) -> bool
    decreases items,
{
    if items.len() == 0 {
        true
    } else {
        all_cwd_eq_seq(items.subrange(0, items.len() - 1), t) && all_cwd_eq(
            items[items.len() - 1],
            t,
        )
    }
}

/// `all_cwd_eq` over every field, and the `cwd` fields hold `t`.
pub open spec fn all_cwd_eq_fields(fields: Seq<(Seq<char>, JsonV)>, t: Seq<char>) -> bool
    decreases fields,
{
    if fields.len() == 0 {
        true
    } else {
        let kv = fields[fields.len() - 1];
        all_cwd_eq_fields(fields.subrange(0, fields.len() - 1), t) && (kv.0 == "cwd"@ && kv.1
            is Text ==> kv.1 == JsonV::Text(t)) && all_cwd_eq(kv.1, t)
    }
}

/// After a rewrite, every string-valued `cwd` field equals the target path.
pub proof fn lemma_rewrite_cwd_all(v: JsonV, t: Seq<char>)
    ensures
        all_cwd_eq(rewrite_cwd_spec(v, t), t),
    decreases v,
{
    match v {
        JsonV::Array(items) => {
            lemma_rewrite_cwd_all_seq(items, t);
        },
        JsonV::Object(fields) => {
            lemma_rewrite_cwd_all_fields(fields, t);
        },
        _ => {},
    }
}

proof fn lemma_rewrite_cwd_all_seq(items: Seq<JsonV>, t: Seq<char>)
    ensures
        all_cwd_eq_seq(rewrite_cwd_seq(items, t), t),
    decreases items,
{
    if items.len() > 0 {
        let prev = items.subrange(0, items.len() - 1);
        lemma_rewrite_cwd_all_seq(prev, t);
        lemma_rewrite_cwd_all(items[items.len() - 1], t);
        lemma_rewrite_cwd_seq_props(items, t);
        lemma_rewrite_cwd_seq_props(prev, t);
        let rw = rewrite_cwd_seq(items, t);
        assert(rw.subrange(0, rw.len() - 1) =~= rewrite_cwd_seq(prev, t));
    }
}

proof fn lemma_rewrite_cwd_all_fields(fields: Seq<(Seq<char>, JsonV)>, t: Seq<char>)
    ensures
        all_cwd_eq_fields(rewrite_cwd_fields_spec(fields, t), t),
    decreases fields,
{
    if fields.len() > 0 {
        let prev = fields.subrange(0, fields.len() - 1);
        lemma_rewrite_cwd_all_fields(prev, t);
        let kv = fields[fields.len() - 1];
        if kv.0 == "cwd"@ && kv.1 is Text {
            assert(all_cwd_eq(JsonV::Text(t), t));
        } else {
            lemma_rewrite_cwd_all(kv.1, t);
        }
        lemma_rewrite_cwd_fields_props(fields, t);
        lemma_rewrite_cwd_fields_props(prev, t);
        let rw = rewrite_cwd_fields_spec(fields, t);
        assert(rw.subrange(0, rw.len() - 1) =~= rewrite_cwd_fields_spec(prev, t));
    }
}

/// Replaces the value of the first field named `key`, if any.
pub open spec fn set_field(
    fields: Seq<(Seq<char>, JsonV)>,
    key: Seq<char>,
    val: JsonV,
) -> Seq<(Seq<char>, JsonV)> {
    let j = key_idx_from(fields, key, 0);
    if j < fields.len() {
        fields.update(j, (key, val))
    } else {
        fields
    }
}

/// Replaces the value of the first field named `key`, or appends the field.
pub open spec fn upsert_field(
    fields: Seq<(Seq<char>, JsonV)>,
    key: Seq<char>,
    val: JsonV,
) -> Seq<(Seq<char>, JsonV)> {
    let j = key_idx_from(fields, key, 0);
    if j < fields.len() {
        fields.update(j, (key, val))
    } else {
        fields.push((key, val))
    }
}

/// On a `session_meta` record, replaces the payload field named `key` with
/// the given text; every other value is left unchanged.
pub open spec fn rewrite_meta_text_spec(v: JsonV, key: Seq<char>, text: Seq<char>) -> JsonV {
    if !has_type(v, "session_meta"@) {
        v
    } else {
        match v {
            JsonV::Object(fields) => {
                let j = key_idx_from(fields, "payload"@, 0);
                if j < fields.len() {
                    match fields[j].1 {
                        JsonV::Object(pf) => JsonV::Object(
                            fields.update(
                                j,
                                ("payload"@, JsonV::Object(upsert_field(pf, key, JsonV::Text(text)))),
                            ),
                        ),
                        _ => v,
                    }
                } else {
                    v
                }
            },
            _ => v,
        }
    }
}

/// Replaces the value of the first field named `key` (or appends it) with a
/// fresh text value, cloning the rest.
#[verifier::loop_isolation(false)]
fn upsert_text_field(fields: &Vec<(String, JsonValue)>, key: &str, text: &str) -> (r: Vec<
    (String, JsonValue),
>)
    ensures
        model_fields(r@) == upsert_field(model_fields(fields@), key@, JsonV::Text(text@)),
{
    broadcast use lemma_model_seq_props, lemma_model_fields_props;

    let ghost m = model_fields(fields@);
    proof {
        assert(model_fields(fields@).len() == fields@.len());
    }
    let mut out: Vec<(String, JsonValue)> = Vec::new();
    let mut i: usize = 0;
    let mut replaced = false;
    while i < fields.len()
        invariant
            0 <= i <= fields@.len(),
            m == model_fields(fields@),
            out@.len() == i,
            !replaced ==> key_idx_from(m, key@, 0) == key_idx_from(m, key@, i as int),
            !replaced ==> forall|k: int|
                0 <= k < i ==> ((#[trigger] out@[k].0)@, out@[k].1.model()) == m[k],
            replaced ==> 0 <= key_idx_from(m, key@, 0) < i,
            replaced ==> forall|k: int|
                0 <= k < i && k != key_idx_from(m, key@, 0) ==> ((#[trigger] out@[k].0)@,
                out@[k].1.model()) == m[k],
            replaced ==> ({
                let j = key_idx_from(m, key@, 0);
                ((out@[j].0)@, out@[j].1.model()) == (key@, JsonV::Text(text@))
            }),
        decreases fields@.len() - i,
    {
        proof {
            assert(m[i as int] == (fields@[i as int].0@, fields@[i as int].1.model()));
        }
        if !replaced && str_eq(fields[i].0.as_str(), key) {
            proof {
                assert(key_idx_from(m, key@, i as int) == i as int);
                assert(key_idx_from(m, key@, 0) == i as int);
            }
            out.push((String::from_str(key), JsonValue::Text(String::from_str(text))));
            replaced = true;
            proof {
                assert(out@.len() == i + 1);
                assert((out@[i as int].0)@ == key@);
                assert(out@[i as int].1.model() == JsonV::Text(text@));
            }
        } else {
            if !replaced {
                proof {
                    lemma_key_idx_step(m, key@, i as int);
                }
            }
            let k = fields[i].0.clone();
            let v = fields[i].1.clone_value();
            out.push((k, v));
        }
        i += 1;
    }
    if !replaced {
        out.push((String::from_str(key), JsonValue::Text(String::from_str(text))));
        proof {
            assert(model_fields(out@) =~= upsert_field(m, key@, JsonV::Text(text@)));
        }
    } else {
        proof {
            assert(model_fields(out@) =~= upsert_field(m, key@, JsonV::Text(text@)));
        }
    }
    out
}

/// On a `session_meta` record, sets the payload field named `key` to the
/// given text; all other records are cloned unchanged.
#[verifier::loop_isolation(false)]
fn rewrite_meta_text(v: &JsonValue, key: &str, text: &str) -> (r: JsonValue)
    ensures
        r.model() == rewrite_meta_text_spec(v.model(), key@, text@),
{
    broadcast use lemma_model_seq_props, lemma_model_fields_props;

    if !v.has_type("session_meta") {
        return v.clone_value();
    }
    match v {
        JsonValue::Object(fields) => {
            let ghost m = model_fields(fields@);
            proof {
                assert(model_fields(fields@).len() == fields@.len());
            }
            let mut out: Vec<(String, JsonValue)> = Vec::new();
            let mut i: usize = 0;
            let mut replaced = false;
            while i < fields.len()
                invariant
                    0 <= i <= fields@.len(),
                    m == model_fields(fields@),
                    out@.len() == i,
                    !replaced ==> key_idx_from(m, "payload"@, 0) == key_idx_from(
                        m,
                        "payload"@,
                        i as int,
                    ),
                    !replaced ==> forall|k: int|
                        0 <= k < i ==> ((#[trigger] out@[k].0)@, out@[k].1.model()) == m[k],
                    replaced ==> ({
                        let j = key_idx_from(m, "payload"@, 0);
                        &&& 0 <= j < i
                        &&& fields@[j].1.model() is Object
                        &&& (forall|k: int|
                            0 <= k < i && k != j ==> ((#[trigger] out@[k].0)@, out@[k].1.model())
                                == m[k])
                        &&& ((out@[j].0)@, out@[j].1.model()) == ("payload"@, JsonV::Object(
                            upsert_field(
                                fields@[j].1.model()->Object_0,
                                key@,
                                JsonV::Text(text@),
                            ),
                        ))
                    }),
                decreases fields@.len() - i,
            {
                proof {
                    assert(m[i as int] == (fields@[i as int].0@, fields@[i as int].1.model()));
                }
                if !replaced && str_eq(fields[i].0.as_str(), "payload") {
                    proof {
                        assert(key_idx_from(m, "payload"@, i as int) == i as int);
                    }
                    match &fields[i].1 {
                        JsonValue::Object(pf) => {
                            let newpf = upsert_text_field(pf, key, text);
                            out.push((String::from_str("payload"), JsonValue::Object(newpf)));
                            replaced = true;
                        },
                        _ => {
                            // A non-object payload is left untouched, and so is
                            // the rest of the record.
                            return v.clone_value();
                        },
                    }
                } else {
                    if !replaced {
                        proof {
                            lemma_key_idx_step(m, "payload"@, i as int);
                        }
                    }
                    let k = fields[i].0.clone();
                    let val = fields[i].1.clone_value();
                    out.push((k, val));
                }
                i += 1;
            }
            if !replaced {
                // No payload field at all: the record stays as it is.
                proof {
                    assert(model_fields(out@) =~= m);
                }
                return JsonValue::Object(out);
            }
            proof {
                let j = key_idx_from(m, "payload"@, 0);
                assert(model_fields(out@) =~= m.update(
                    j,
                    ("payload"@, JsonV::Object(
                        upsert_field(fields@[j].1.model()->Object_0, key@, JsonV::Text(text@)),
                    )),
                ));
            }
            JsonValue::Object(out)
        },
        _ => v.clone_value(),
    }
}

/// On a `session_meta` record, replaces the session id in the payload.
pub fn rewrite_session_id(v: &JsonValue, new_id: &str) -> (r: JsonValue)
    ensures
        r.model() == rewrite_meta_text_spec(v.model(), "id"@, new_id@),
{
    rewrite_meta_text(v, "id", new_id)
}

/// On a `session_meta` record, replaces the start timestamp in the payload
/// with the given current time.
pub fn rewrite_session_start_timestamp(v: &JsonValue, now_rfc3339: &str) -> (r: JsonValue)
    ensures
        r.model() == rewrite_meta_text_spec(v.model(), "timestamp"@, now_rfc3339@),
{
    rewrite_meta_text(v, "timestamp", now_rfc3339)
}

// ---------------------------------------------------------------------------
// The trusted boundary around serde_json.
// ---------------------------------------------------------------------------

#[verifier::external_type_specification]
#[verifier::external_body]
pub struct ExValue(serde_json::Value);

/// What `serde_json` parses one line of text into: the model of the parsed
/// value, or nothing when the text is not valid JSON.
pub uninterp spec fn json_of(line: Seq<char>) -> Option<JsonV>;

/// The text that `serde_json` prints for a value of the given model.
pub uninterp spec fn json_text_of(v: JsonV) -> Seq<char>;

/// Relies on `serde_json::from_str`: parses the line as one JSON document,
/// reporting nothing when the text is malformed. The result depends on the
/// line's characters alone.
#[verifier::external_body]
pub fn parse_json_line(line: &str) -> (r: Option<JsonValue>)
    ensures
        match r {
            Some(v) => json_of(line@) == Some(v.model()),
            None => json_of(line@) is None,
        },
{
    match serde_json::from_str::<serde_json::Value>(line) {
        Ok(v) => Some(from_serde(v)),
        Err(_) => None,
    }
}

/// Relies on `serde_json::Value`: converts a parsed value into the engine's
/// own tree, one variant at a time; numbers keep their printed form. Only
/// `parse_json_line` calls this.
#[verifier::external_body]
fn from_serde(v: serde_json::Value) -> JsonValue {
    match v {
        serde_json::Value::Null => JsonValue::Null,
        serde_json::Value::Bool(b) => JsonValue::Bool(b),
        serde_json::Value::Number(n) => JsonValue::Number(n.to_string()),
        serde_json::Value::String(s) => JsonValue::Text(s),
        serde_json::Value::Array(a) => JsonValue::Array(a.into_iter().map(from_serde).collect()),
        serde_json::Value::Object(m) => JsonValue::Object(
            m.into_iter().map(|(k, val)| (k, from_serde(val))).collect(),
        ),
    }
}

/// Relies on `serde_json::to_string`: prints the value as one line of JSON.
/// For values with string keys the serializer cannot fail, and its output
/// depends on the value's model alone.
#[verifier::external_body]
pub fn json_to_line(v: &JsonValue) -> (r: String)
    ensures
        r@ == json_text_of(v.model()),
{
    serde_json::to_string(&to_serde(v)).unwrap_or_else(|_| String::new())
}

/// Relies on `serde_json::Value` and `serde_json::Number`: converts the
/// engine's tree back into a serde value, one variant at a time; a number's
/// kept text is re-parsed. Only `json_to_line` calls this.
#[verifier::external_body]
fn to_serde(v: &JsonValue) -> serde_json::Value {
    match v {
        JsonValue::Null => serde_json::Value::Null,
        JsonValue::Bool(b) => serde_json::Value::Bool(*b),
        JsonValue::Number(s) => match s.parse::<serde_json::Number>() {
            Ok(n) => serde_json::Value::Number(n),
            Err(_) => serde_json::Value::Null,
        },
        JsonValue::Text(s) => serde_json::Value::String(s.clone()),
        JsonValue::Array(a) => serde_json::Value::Array(a.iter().map(to_serde).collect()),
        JsonValue::Object(o) => serde_json::Value::Object(
            o.iter().map(|(k, val)| (k.clone(), to_serde(val))).collect(),
        ),
    }
}

} // verus!
