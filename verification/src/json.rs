//! JSON values as plain data: what a tool call's arguments hold.

use vstd::prelude::*;

use crate::pairs::{in_name_order, lemma_value_at, lemma_value_under, value_under};
use crate::text::{joined, opt_str_view, precedes, same_text, views};

verus! {

/// A JSON value. A number is kept as the text it is written with, and an object as its
/// fields in the order they are written.
#[derive(Debug, PartialEq, Eq)]
pub enum Json {
    Null,
    Bool(bool),
    Number(String),
    Text(String),
    Array(Vec<Json>),
    Object(Vec<(String, Json)>),
}

/// What a JSON value says, free of how it is held in memory.
pub enum JsonModel {
    Null,
    Bool(bool),
    Number(Seq<char>),
    Text(Seq<char>),
    Array(Seq<JsonModel>),
    Object(Seq<(Seq<char>, JsonModel)>),
}

/// What a value says.
pub open spec fn model_of(value: Json) -> JsonModel
    decreases value, children(value) + 1,
{
    match value {
        Json::Null => JsonModel::Null,
        Json::Bool(b) => JsonModel::Bool(b),
        Json::Number(digits) => JsonModel::Number(digits@),
        Json::Text(text) => JsonModel::Text(text@),
        Json::Array(items) => JsonModel::Array(item_models(value, items@.len())),
        Json::Object(fields) => JsonModel::Object(field_models(value, fields@.len())),
    }
}

/// What the first `n` items of an array say.
pub open spec fn item_models(value: Json, n: nat) -> Seq<JsonModel>
    decreases value, n,
    when value matches Json::Array(items) && n <= items@.len()
{
    if n == 0 {
        seq![]
    } else {
        item_models(value, (n - 1) as nat).push(model_of(value->Array_0@[n - 1]))
    }
}

/// What the first `n` fields of an object say.
pub open spec fn field_models(value: Json, n: nat) -> Seq<(Seq<char>, JsonModel)>
    decreases value, n,
    when value matches Json::Object(fields) && n <= fields@.len()
{
    if n == 0 {
        seq![]
    } else {
        field_models(value, (n - 1) as nat).push(
            (value->Object_0@[n - 1].0@, model_of(value->Object_0@[n - 1].1)),
        )
    }
}

/// A character as it stands in a JSON string literal: quotes, backslashes and control characters
/// are escaped, the latter by a letter where there is one and else by four hex digits.
pub open spec fn escaped(c: char) -> Seq<char> {
    if c == '"' {
        seq!['\\', '"']
    } else if c == '\\' {
        seq!['\\', '\\']
    } else if c == '\u{8}' {
        seq!['\\', 'b']
    } else if c == '\t' {
        seq!['\\', 't']
    } else if c == '\n' {
        seq!['\\', 'n']
    } else if c == '\u{c}' {
        seq!['\\', 'f']
    } else if c == '\r' {
        seq!['\\', 'r']
    } else if (c as u32) < 0x20 {
        let hex = "0123456789abcdef"@;
        seq!['\\', 'u', '0', '0', hex[(c as u32 / 16) as int], hex[(c as u32 % 16) as int]]
    } else {
        seq![c]
    }
}

/// A text as it stands between the quotes of a JSON string literal.
pub open spec fn escaped_text(text: Seq<char>) -> Seq<char>
    decreases text.len(),
{
    if text.len() == 0 {
        seq![]
    } else {
        escaped_text(text.drop_last()) + escaped(text.last())
    }
}

/// The JSON string literal of a text, quotes and escapes included.
pub open spec fn quoted(text: Seq<char>) -> Seq<char> {
    seq!['"'] + escaped_text(text) + seq!['"']
}

/// `serde_json::Value`'s `Display`, on a string value: writes the text between quotes, each
/// character escaped where JSON or the crate's table of escapes asks for it, and as it is
/// otherwise.
#[verifier::external_body]
fn quote(text: &str) -> (literal: String)
    ensures
        literal@ == quoted(text@),
{
    serde_json::Value::from(text).to_string()
}

/// How many values an array or an object holds directly.
pub open spec fn children(value: Json) -> nat {
    match value {
        Json::Array(items) => items@.len(),
        Json::Object(fields) => fields@.len(),
        _ => 0,
    }
}

/// The compact text of a JSON value: no white space between its tokens.
pub open spec fn json_text(value: Json) -> Seq<char>
    decreases value, children(value) + 1,
{
    match value {
        Json::Null => "null"@,
        Json::Bool(true) => "true"@,
        Json::Bool(false) => "false"@,
        Json::Number(digits) => digits@,
        Json::Text(text) => quoted(text@),
        Json::Array(items) => seq!['['] + joined(item_texts(value, items@.len()), seq![','])
            + seq![']'],
        Json::Object(fields) => seq!['{'] + joined(field_texts(value, fields@.len()), seq![','])
            + seq!['}'],
    }
}

/// The texts of the first `n` items of an array.
pub open spec fn item_texts(value: Json, n: nat) -> Seq<Seq<char>>
    decreases value, n,
    when value matches Json::Array(items) && n <= items@.len()
{
    if n == 0 {
        seq![]
    } else {
        item_texts(value, (n - 1) as nat).push(json_text(value->Array_0@[n - 1]))
    }
}

/// The texts of the first `n` fields of an object.
pub open spec fn field_texts(value: Json, n: nat) -> Seq<Seq<char>>
    decreases value, n,
    when value matches Json::Object(fields) && n <= fields@.len()
{
    if n == 0 {
        seq![]
    } else {
        field_texts(value, (n - 1) as nat).push(
            quoted(value->Object_0@[n - 1].0@) + seq![':'] + json_text(value->Object_0@[n - 1].1),
        )
    }
}

/// The text of a JSON value laid out for reading, behind lines that start with `indent`: each item
/// and each field on a line of its own, two spaces further in.
pub open spec fn pretty_in(value: Json, indent: Seq<char>) -> Seq<char>
    decreases value, children(value) + 1,
{
    let inner = indent + "  "@;
    match value {
        Json::Array(items) => if items@.len() == 0 {
            "[]"@
        } else {
            "[\n"@ + joined(item_lines(value, items@.len(), inner), ",\n"@) + "\n"@ + indent
                + "]"@
        },
        Json::Object(fields) => if fields@.len() == 0 {
            "{}"@
        } else {
            "{\n"@ + joined(field_lines(value, fields@.len(), inner), ",\n"@) + "\n"@ + indent
                + "}"@
        },
        _ => json_text(value),
    }
}

/// The lines of the first `n` items of an array, each behind `indent`.
pub open spec fn item_lines(value: Json, n: nat, indent: Seq<char>) -> Seq<Seq<char>>
    decreases value, n,
    when value matches Json::Array(items) && n <= items@.len()
{
    if n == 0 {
        seq![]
    } else {
        item_lines(value, (n - 1) as nat, indent).push(
            indent + pretty_in(value->Array_0@[n - 1], indent),
        )
    }
}

/// The lines of the first `n` fields of an object, each behind `indent`.
pub open spec fn field_lines(value: Json, n: nat, indent: Seq<char>) -> Seq<Seq<char>>
    decreases value, n,
    when value matches Json::Object(fields) && n <= fields@.len()
{
    if n == 0 {
        seq![]
    } else {
        field_lines(value, (n - 1) as nat, indent).push(
            indent + quoted(value->Object_0@[n - 1].0@) + ": "@ + pretty_in(
                value->Object_0@[n - 1].1,
                indent,
            ),
        )
    }
}

/// The text of a JSON value laid out for reading.
pub open spec fn pretty_text(value: Json) -> Seq<char> {
    pretty_in(value, ""@)
}

/// Whether the fields of every object inside a value stand in the order of their names, each name
/// once: as a parsed value's do.
pub open spec fn orderly(value: Json) -> bool
    decreases value, children(value) + 1,
{
    match value {
        Json::Array(items) => items_orderly(value, items@.len()),
        Json::Object(fields) => in_name_order(fields@) && fields_orderly(value, fields@.len()),
        _ => true,
    }
}

/// Whether the first `n` items of an array are orderly.
pub open spec fn items_orderly(value: Json, n: nat) -> bool
    decreases value, n,
    when value matches Json::Array(items) && n <= items@.len()
{
    n == 0 || (items_orderly(value, (n - 1) as nat) && orderly(value->Array_0@[n - 1]))
}

/// Whether the first `n` fields of an object are orderly.
pub open spec fn fields_orderly(value: Json, n: nat) -> bool
    decreases value, n,
    when value matches Json::Object(fields) && n <= fields@.len()
{
    n == 0 || (fields_orderly(value, (n - 1) as nat) && orderly(value->Object_0@[n - 1].1))
}

/// In an orderly object a name leads to one field only: the first so named is the last.
pub proof fn an_orderly_object_names_its_fields_once(value: Json, key: Seq<char>)
    requires
        orderly(value),
        value is Object,
    ensures
        field(value, key) == value_under(value->Object_0@, key),
{
    let fields = value->Object_0@;
    lemma_lookup(fields, key);
    lemma_value_under(fields, key);
    match lookup(fields, key) {
        Some(found) => {
            let i = choose|i: int|
                0 <= i < fields.len() && (#[trigger] fields[i]).0@ == key && fields[i].1 == found;
            lemma_value_at(fields, i);
        },
        None => {},
    }
}

proof fn lemma_lookup(fields: Seq<(String, Json)>, key: Seq<char>)
    ensures
        match lookup(fields, key) {
            Some(value) => exists|i: int|
                0 <= i < fields.len() && (#[trigger] fields[i]).0@ == key && fields[i].1 == value,
            None => forall|i: int| 0 <= i < fields.len() ==> (#[trigger] fields[i]).0@ != key,
        },
    decreases fields.len(),
{
    if fields.len() > 0 && fields[0].0@ != key {
        let rest = fields.drop_first();
        lemma_lookup(rest, key);
        match lookup(rest, key) {
            Some(value) => {
                let i = choose|i: int|
                    0 <= i < rest.len() && (#[trigger] rest[i]).0@ == key && rest[i].1 == value;
                assert(fields[i + 1].0@ == key && fields[i + 1].1 == value);
            },
            None => {
                assert forall|i: int| 0 <= i < fields.len() implies (#[trigger] fields[i]).0@
                    != key by {
                    if i > 0 {
                        assert(rest[i - 1].0@ != key);
                    }
                }
            },
        }
    }
}

/// The first field named `key` among `fields`.
pub open spec fn lookup(fields: Seq<(String, Json)>, key: Seq<char>) -> Option<Json>
    decreases fields.len(),
{
    if fields.len() == 0 {
        None
    } else if fields[0].0@ == key {
        Some(fields[0].1)
    } else {
        lookup(fields.drop_first(), key)
    }
}

/// The field of an object named `key`; nothing of any other value.
pub open spec fn field(value: Json, key: Seq<char>) -> Option<Json> {
    match value {
        Json::Object(fields) => lookup(fields@, key),
        _ => None,
    }
}

/// The text of a string value.
pub open spec fn string_value(value: Json) -> Option<Seq<char>> {
    match value {
        Json::Text(text) => Some(text@),
        _ => None,
    }
}

/// The field of an object named `key`, when it is a string.
pub open spec fn string_field(value: Json, key: Seq<char>) -> Option<Seq<char>> {
    match field(value, key) {
        Some(found) => string_value(found),
        None => None,
    }
}

/// Every string inside a value, at any depth, in the order they are written. Field names
/// are not among them.
pub open spec fn strings_in(value: Json) -> Seq<Seq<char>>
    decreases value, children(value) + 1,
{
    match value {
        Json::Text(text) => seq![text@],
        Json::Array(items) => strings_in_items(value, items@.len()),
        Json::Object(fields) => strings_in_fields(value, fields@.len()),
        _ => seq![],
    }
}

/// The strings inside the first `n` items of an array.
pub open spec fn strings_in_items(value: Json, n: nat) -> Seq<Seq<char>>
    decreases value, n,
    when value matches Json::Array(items) && n <= items@.len()
{
    if n == 0 {
        seq![]
    } else {
        strings_in_items(value, (n - 1) as nat) + strings_in(value->Array_0@[n - 1])
    }
}

/// The strings inside the first `n` fields of an object.
pub open spec fn strings_in_fields(value: Json, n: nat) -> Seq<Seq<char>>
    decreases value, n,
    when value matches Json::Object(fields) && n <= fields@.len()
{
    if n == 0 {
        seq![]
    } else {
        strings_in_fields(value, (n - 1) as nat) + strings_in(value->Object_0@[n - 1].1)
    }
}

impl Json {
    /// A string value.
    pub fn text(value: &str) -> (json: Self)
        ensures
            model_of(json) == JsonModel::Text(value@),
    {
        Json::Text(value.to_owned())
    }

    /// The compact text of the value.
    pub fn to_text(&self) -> (text: String)
        ensures
            text@ == json_text(*self),
        decreases *self,
    {
        match self {
            Json::Null => "null".to_owned(),
            Json::Bool(true) => "true".to_owned(),
            Json::Bool(false) => "false".to_owned(),
            Json::Number(digits) => digits.clone(),
            Json::Text(text) => quote(text.as_str()),
            Json::Array(items) => {
                let mut text = String::new();
                let mut i: usize = 0;
                text.push('[');
                while i < items.len()
                    invariant
                        *self == Json::Array(*items),
                        i <= items.len(),
                        text@ == seq!['['] + joined(item_texts(*self, i as nat), seq![',']),
                    decreases items.len() - i,
                {
                    if i > 0 {
                        text.push(',');
                    }
                    assert(self->Array_0 == *items);
                    let item = items[i].to_text();
                    text.append(item.as_str());
                    proof {
                        let next = item_texts(*self, (i + 1) as nat);
                        assert(next.len() == i + 1) by {
                            lemma_item_texts_len(*self, (i + 1) as nat);
                        }
                        assert(next.drop_last() =~= item_texts(*self, i as nat));
                        assert(next.last() == item@);
                        assert(text@ =~= seq!['['] + joined(next, seq![',']));
                    }
                    i += 1;
                }
                text.push(']');
                proof {
                    assert(text@ =~= json_text(*self));
                }
                text
            },
            Json::Object(fields) => {
                let mut text = String::new();
                let mut i: usize = 0;
                text.push('{');
                while i < fields.len()
                    invariant
                        *self == Json::Object(*fields),
                        i <= fields.len(),
                        text@ == seq!['{'] + joined(field_texts(*self, i as nat), seq![',']),
                    decreases fields.len() - i,
                {
                    if i > 0 {
                        text.push(',');
                    }
                    let key = quote(fields[i].0.as_str());
                    assert(self->Object_0 == *fields);
                    let item = fields[i].1.to_text();
                    text.append(key.as_str());
                    text.push(':');
                    text.append(item.as_str());
                    proof {
                        let next = field_texts(*self, (i + 1) as nat);
                        assert(next.len() == i + 1) by {
                            lemma_field_texts_len(*self, (i + 1) as nat);
                        }
                        assert(next.drop_last() =~= field_texts(*self, i as nat));
                        assert(next.last() == key@ + seq![':'] + item@);
                        assert(text@ =~= seq!['{'] + joined(next, seq![',']));
                    }
                    i += 1;
                }
                text.push('}');
                proof {
                    assert(text@ =~= json_text(*self));
                }
                text
            },
        }
    }

    /// The text of the value laid out for reading.
    pub fn to_pretty(&self) -> (text: String)
        ensures
            text@ == pretty_text(*self),
    {
        self.pretty_behind("")
    }

    fn pretty_behind(&self, indent: &str) -> (text: String)
        ensures
            text@ == pretty_in(*self, indent@),
        decreases *self,
    {
        match self {
            Json::Array(items) => {
                if items.len() == 0 {
                    return "[]".to_owned();
                }
                let mut inner = indent.to_owned();
                inner.append("  ");
                let mut text = "[\n".to_owned();
                let mut i: usize = 0;
                assert("[\n"@ + joined(item_lines(*self, 0, inner@), ",\n"@) =~= "[\n"@);
                while i < items.len()
                    invariant
                        *self == Json::Array(*items),
                        i <= items.len(),
                        text@ == "[\n"@ + joined(item_lines(*self, i as nat, inner@), ",\n"@),
                    decreases items.len() - i,
                {
                    if i > 0 {
                        text.append(",\n");
                    }
                    assert(self->Array_0 == *items);
                    let item = items[i].pretty_behind(inner.as_str());
                    text.append(inner.as_str());
                    text.append(item.as_str());
                    proof {
                        let next = item_lines(*self, (i + 1) as nat, inner@);
                        lemma_item_lines_len(*self, (i + 1) as nat, inner@);
                        assert(next.drop_last() =~= item_lines(*self, i as nat, inner@));
                        assert(next.last() == inner@ + item@);
                        assert(text@ =~= "[\n"@ + joined(next, ",\n"@));
                    }
                    i += 1;
                }
                text.append("\n");
                text.append(indent);
                text.append("]");
                text
            },
            Json::Object(fields) => {
                if fields.len() == 0 {
                    return "{}".to_owned();
                }
                let mut inner = indent.to_owned();
                inner.append("  ");
                let mut text = "{\n".to_owned();
                let mut i: usize = 0;
                assert("{\n"@ + joined(field_lines(*self, 0, inner@), ",\n"@) =~= "{\n"@);
                while i < fields.len()
                    invariant
                        *self == Json::Object(*fields),
                        i <= fields.len(),
                        text@ == "{\n"@ + joined(field_lines(*self, i as nat, inner@), ",\n"@),
                    decreases fields.len() - i,
                {
                    if i > 0 {
                        text.append(",\n");
                    }
                    let key = quote(fields[i].0.as_str());
                    assert(self->Object_0 == *fields);
                    let item = fields[i].1.pretty_behind(inner.as_str());
                    text.append(inner.as_str());
                    text.append(key.as_str());
                    text.append(": ");
                    text.append(item.as_str());
                    proof {
                        let next = field_lines(*self, (i + 1) as nat, inner@);
                        lemma_field_lines_len(*self, (i + 1) as nat, inner@);
                        assert(next.drop_last() =~= field_lines(*self, i as nat, inner@));
                        assert(next.last() == inner@ + key@ + ": "@ + item@);
                        assert(text@ =~= "{\n"@ + joined(next, ",\n"@));
                    }
                    i += 1;
                }
                text.append("\n");
                text.append(indent);
                text.append("}");
                text
            },
            _ => self.to_text(),
        }
    }

    /// The same value again.
    pub fn duplicate(&self) -> (copy: Self)
        ensures
            model_of(copy) == model_of(*self),
        decreases *self,
    {
        match self {
            Json::Null => Json::Null,
            Json::Bool(b) => Json::Bool(*b),
            Json::Number(digits) => Json::Number(digits.clone()),
            Json::Text(text) => Json::Text(text.clone()),
            Json::Array(items) => {
                let mut copies: Vec<Json> = Vec::new();
                let mut i: usize = 0;
                while i < items.len()
                    invariant
                        *self == Json::Array(*items),
                        i <= items.len(),
                        copies.len() == i,
                        forall|k: int| 0 <= k < i ==> model_of(#[trigger] copies@[k]) == model_of(items@[k]),
                    decreases items.len() - i,
                {
                    assert(self->Array_0 == *items);
                    let item = items[i].duplicate();
                    copies.push(item);
                    i += 1;
                }
                let copy = Json::Array(copies);
                proof {
                    lemma_same_items(copy, *self, items@.len());
                }
                copy
            },
            Json::Object(fields) => {
                let mut copies: Vec<(String, Json)> = Vec::new();
                let mut i: usize = 0;
                while i < fields.len()
                    invariant
                        *self == Json::Object(*fields),
                        i <= fields.len(),
                        copies.len() == i,
                        forall|k: int|
                            0 <= k < i ==> (#[trigger] copies@[k]).0@ == fields@[k].0@
                                && model_of(copies@[k].1) == model_of(fields@[k].1),
                    decreases fields.len() - i,
                {
                    assert(self->Object_0 == *fields);
                    let item = fields[i].1.duplicate();
                    copies.push((fields[i].0.clone(), item));
                    i += 1;
                }
                let copy = Json::Object(copies);
                proof {
                    lemma_same_fields(copy, *self, fields@.len());
                }
                copy
            },
        }
    }

    /// The field of an object named `key`.
    pub fn get(&self, key: &str) -> (found: Option<&Json>)
        ensures
            match found {
                Some(value) => field(*self, key@) == Some(*value),
                None => field(*self, key@) is None,
            },
    {
        match self {
            Json::Object(fields) => {
                let mut i: usize = 0;
                assert(fields@.skip(0) =~= fields@);
                while i < fields.len()
                    invariant
                        i <= fields.len(),
                        *self == Json::Object(*fields),
                        lookup(fields@, key@) == lookup(fields@.skip(i as int), key@),
                    decreases fields.len() - i,
                {
                    proof {
                        assert(fields@.skip(i as int).drop_first() =~= fields@.skip(i + 1));
                    }
                    if same_text(fields[i].0.as_str(), key) {
                        return Some(&fields[i].1);
                    }
                    i += 1;
                }
                None
            },
            _ => None,
        }
    }

    /// The text of a string value.
    pub fn as_str(&self) -> (text: Option<&str>)
        ensures
            opt_str_view(text) == string_value(*self),
    {
        match self {
            Json::Text(text) => Some(text.as_str()),
            _ => None,
        }
    }

    /// The field of an object named `key`, when it is a string.
    pub fn get_str(&self, key: &str) -> (text: Option<&str>)
        ensures
            opt_str_view(text) == string_field(*self, key@),
    {
        match self.get(key) {
            Some(value) => value.as_str(),
            None => None,
        }
    }

    /// Every string inside the value, at any depth, in the order they are written.
    pub fn strings(&self) -> (found: Vec<String>)
        ensures
            views(found@) == strings_in(*self),
        decreases *self,
    {
        let mut found: Vec<String> = Vec::new();
        match self {
            Json::Text(text) => {
                found.push(text.clone());
                assert(views(found@) =~= strings_in(*self));
            },
            Json::Array(items) => {
                let mut i: usize = 0;
                assert(views(found@) =~= strings_in_items(*self, 0));
                while i < items.len()
                    invariant
                        *self == Json::Array(*items),
                        i <= items.len(),
                        views(found@) == strings_in_items(*self, i as nat),
                    decreases items.len() - i,
                {
                    assert(self->Array_0 == *items);
                    let mut inner = items[i].strings();
                    let ghost before = found@;
                    let ghost added = inner@;
                    found.append(&mut inner);
                    assert(views(before + added) =~= views(before) + views(added));
                    i += 1;
                }
            },
            Json::Object(fields) => {
                let mut i: usize = 0;
                assert(views(found@) =~= strings_in_fields(*self, 0));
                while i < fields.len()
                    invariant
                        *self == Json::Object(*fields),
                        i <= fields.len(),
                        views(found@) == strings_in_fields(*self, i as nat),
                    decreases fields.len() - i,
                {
                    assert(self->Object_0 == *fields);
                    let mut inner = fields[i].1.strings();
                    let ghost before = found@;
                    let ghost added = inner@;
                    found.append(&mut inner);
                    assert(views(before + added) =~= views(before) + views(added));
                    i += 1;
                }
            },
            _ => {
                assert(views(found@) =~= strings_in(*self));
            },
        }
        found
    }
}

proof fn lemma_same_items(a: Json, b: Json, n: nat)
    requires
        a is Array,
        b is Array,
        n <= a->Array_0@.len(),
        n <= b->Array_0@.len(),
        forall|k: int| 0 <= k < n ==> model_of(#[trigger] a->Array_0@[k]) == model_of(b->Array_0@[k]),
    ensures
        item_models(a, n) == item_models(b, n),
    decreases n,
{
    if n > 0 {
        lemma_same_items(a, b, (n - 1) as nat);
        assert(model_of(a->Array_0@[n - 1]) == model_of(b->Array_0@[n - 1]));
    }
}

proof fn lemma_same_fields(a: Json, b: Json, n: nat)
    requires
        a is Object,
        b is Object,
        n <= a->Object_0@.len(),
        n <= b->Object_0@.len(),
        forall|k: int|
            0 <= k < n ==> (#[trigger] a->Object_0@[k]).0@ == b->Object_0@[k].0@
                && model_of(a->Object_0@[k].1) == model_of(b->Object_0@[k].1),
    ensures
        field_models(a, n) == field_models(b, n),
    decreases n,
{
    if n > 0 {
        lemma_same_fields(a, b, (n - 1) as nat);
        assert(model_of(a->Object_0@[n - 1].1) == model_of(b->Object_0@[n - 1].1));
    }
}

proof fn lemma_models(value: Json, n: nat)
    ensures
        value matches Json::Array(items) && n <= items@.len() ==> item_models(value, n).len() == n
            && forall|k: int|
            0 <= k < n ==> (#[trigger] item_models(value, n)[k]) == model_of(value->Array_0@[k]),
        value matches Json::Object(fields) && n <= fields@.len() ==> field_models(value, n).len()
            == n && forall|k: int|
            0 <= k < n ==> (#[trigger] field_models(value, n)[k]) == (
                value->Object_0@[k].0@,
                model_of(value->Object_0@[k].1),
            ),
    decreases n,
{
    if n > 0 {
        lemma_models(value, (n - 1) as nat);
    }
}

/// Whether a value is orderly shows in what it says: two that say the same both are or neither is.
pub proof fn order_shows_in_what_is_said(a: Json, b: Json)
    requires
        model_of(a) == model_of(b),
    ensures
        orderly(a) == orderly(b),
    decreases a, children(a) + 1,
{
    match (a, b) {
        (Json::Array(left), Json::Array(right)) => {
            lemma_models(a, left@.len());
            lemma_models(b, right@.len());
            lemma_items_order(a, b, left@.len());
        },
        (Json::Object(left), Json::Object(right)) => {
            lemma_models(a, left@.len());
            lemma_models(b, right@.len());
            lemma_fields_order(a, b, left@.len());
            assert forall|i: int| 0 <= i < left@.len() implies (#[trigger] left@[i]).0@
                == right@[i].0@ by {
                assert(field_models(a, left@.len())[i] == field_models(b, right@.len())[i]);
            }
            if in_name_order(left@) {
                assert forall|i: int, j: int| 0 <= i < j < right@.len() implies precedes(
                    (#[trigger] right@[i]).0@,
                    (#[trigger] right@[j]).0@,
                ) by {
                    assert(precedes(left@[i].0@, left@[j].0@));
                }
            }
            if in_name_order(right@) {
                assert forall|i: int, j: int| 0 <= i < j < left@.len() implies precedes(
                    (#[trigger] left@[i]).0@,
                    (#[trigger] left@[j]).0@,
                ) by {
                    assert(precedes(right@[i].0@, right@[j].0@));
                }
            }
        },
        _ => {},
    }
}

proof fn lemma_items_order(a: Json, b: Json, n: nat)
    requires
        a is Array,
        b is Array,
        n <= a->Array_0@.len(),
        model_of(a) == model_of(b),
    ensures
        b->Array_0@.len() == a->Array_0@.len(),
        items_orderly(a, n) == items_orderly(b, n),
    decreases a, n,
{
    let total = a->Array_0@.len();
    lemma_models(a, total);
    lemma_models(b, b->Array_0@.len());
    if n > 0 {
        lemma_items_order(a, b, (n - 1) as nat);
        assert(item_models(a, total)[n - 1] == item_models(b, total)[n - 1]);
        order_shows_in_what_is_said(a->Array_0@[n - 1], b->Array_0@[n - 1]);
    }
}

proof fn lemma_fields_order(a: Json, b: Json, n: nat)
    requires
        a is Object,
        b is Object,
        n <= a->Object_0@.len(),
        model_of(a) == model_of(b),
    ensures
        b->Object_0@.len() == a->Object_0@.len(),
        fields_orderly(a, n) == fields_orderly(b, n),
    decreases a, n,
{
    let total = a->Object_0@.len();
    lemma_models(a, total);
    lemma_models(b, b->Object_0@.len());
    if n > 0 {
        lemma_fields_order(a, b, (n - 1) as nat);
        assert(field_models(a, total)[n - 1] == field_models(b, total)[n - 1]);
        order_shows_in_what_is_said(a->Object_0@[n - 1].1, b->Object_0@[n - 1].1);
    }
}

proof fn lemma_item_lines_len(value: Json, n: nat, indent: Seq<char>)
    requires
        value matches Json::Array(items) && n <= items@.len(),
    ensures
        item_lines(value, n, indent).len() == n,
    decreases n,
{
    if n > 0 {
        lemma_item_lines_len(value, (n - 1) as nat, indent);
    }
}

proof fn lemma_field_lines_len(value: Json, n: nat, indent: Seq<char>)
    requires
        value matches Json::Object(fields) && n <= fields@.len(),
    ensures
        field_lines(value, n, indent).len() == n,
    decreases n,
{
    if n > 0 {
        lemma_field_lines_len(value, (n - 1) as nat, indent);
    }
}

proof fn lemma_item_texts_len(value: Json, n: nat)
    requires
        value matches Json::Array(items) && n <= items@.len(),
    ensures
        item_texts(value, n).len() == n,
    decreases n,
{
    if n > 0 {
        lemma_item_texts_len(value, (n - 1) as nat);
    }
}

proof fn lemma_field_texts_len(value: Json, n: nat)
    requires
        value matches Json::Object(fields) && n <= fields@.len(),
    ensures
        field_texts(value, n).len() == n,
    decreases n,
{
    if n > 0 {
        lemma_field_texts_len(value, (n - 1) as nat);
    }
}

proof fn lemma_strings_in_items(value: Json, n: nat, text: Seq<char>)
    requires
        value matches Json::Array(items) && n <= items@.len(),
    ensures
        strings_in_items(value, n).contains(text) == exists|i: int|
            0 <= i < n && #[trigger] strings_in(value->Array_0@[i]).contains(text),
    decreases n,
{
    if n > 0 {
        let m = (n - 1) as nat;
        lemma_strings_in_items(value, m, text);
        let before = strings_in_items(value, m);
        let last = strings_in(value->Array_0@[n - 1]);
        lemma_either(before, last, text);
        if exists|i: int| 0 <= i < n && #[trigger] strings_in(value->Array_0@[i]).contains(text) {
            let i = choose|i: int|
                0 <= i < n && #[trigger] strings_in(value->Array_0@[i]).contains(text);
            if i < m {
                assert(strings_in(value->Array_0@[i]).contains(text));
            }
        }
    }
}

proof fn lemma_strings_in_fields(value: Json, n: nat, text: Seq<char>)
    requires
        value matches Json::Object(fields) && n <= fields@.len(),
    ensures
        strings_in_fields(value, n).contains(text) == exists|i: int|
            0 <= i < n && #[trigger] strings_in(value->Object_0@[i].1).contains(text),
    decreases n,
{
    if n > 0 {
        let m = (n - 1) as nat;
        lemma_strings_in_fields(value, m, text);
        let before = strings_in_fields(value, m);
        let last = strings_in(value->Object_0@[n - 1].1);
        lemma_either(before, last, text);
        if exists|i: int|
            0 <= i < n && #[trigger] strings_in(value->Object_0@[i].1).contains(text) {
            let i = choose|i: int|
                0 <= i < n && #[trigger] strings_in(value->Object_0@[i].1).contains(text);
            if i < m {
                assert(strings_in(value->Object_0@[i].1).contains(text));
            }
        }
    }
}

proof fn lemma_either(left: Seq<Seq<char>>, right: Seq<Seq<char>>, text: Seq<char>)
    ensures
        (left + right).contains(text) == (left.contains(text) || right.contains(text)),
{
    let both = left + right;
    if left.contains(text) {
        let i = choose|i: int| 0 <= i < left.len() && left[i] == text;
        assert(both[i] == text);
    }
    if right.contains(text) {
        let i = choose|i: int| 0 <= i < right.len() && right[i] == text;
        assert(both[left.len() + i] == text);
    }
    if both.contains(text) {
        let i = choose|i: int| 0 <= i < both.len() && both[i] == text;
        if i < left.len() {
            assert(left[i] == text);
        } else {
            assert(right[i - left.len()] == text);
        }
    }
}

/// No string is overlooked, however deep it lies: a string value is found itself, and what is found
/// in an array or an object is what is found in any of its items or fields.
pub proof fn every_string_is_found(value: Json, text: Seq<char>)
    ensures
        strings_in(value).contains(text) == match value {
            Json::Text(said) => said@ == text,
            Json::Array(items) => exists|i: int|
                0 <= i < items@.len() && #[trigger] strings_in(items@[i]).contains(text),
            Json::Object(fields) => exists|i: int|
                0 <= i < fields@.len() && #[trigger] strings_in(fields@[i].1).contains(text),
            _ => false,
        },
{
    match value {
        Json::Text(said) => {
            assert(strings_in(value)[0] == said@);
        },
        Json::Array(items) => lemma_strings_in_items(value, items@.len(), text),
        Json::Object(fields) => lemma_strings_in_fields(value, fields@.len(), text),
        _ => {},
    }
}

proof fn lemma_array_texts(value: Json, n: nat, indent: Seq<char>)
    requires
        value matches Json::Array(items) && n <= items@.len(),
    ensures
        item_texts(value, n) == Seq::new(n, |k: int| json_text(value->Array_0@[k])),
        item_lines(value, n, indent) == Seq::new(
            n,
            |k: int| indent + pretty_in(value->Array_0@[k], indent),
        ),
    decreases n,
{
    if n > 0 {
        lemma_array_texts(value, (n - 1) as nat, indent);
    }
    assert(item_texts(value, n) =~= Seq::new(n, |k: int| json_text(value->Array_0@[k])));
    assert(item_lines(value, n, indent) =~= Seq::new(
        n,
        |k: int| indent + pretty_in(value->Array_0@[k], indent),
    ));
}

proof fn lemma_object_texts(value: Json, n: nat, indent: Seq<char>)
    requires
        value matches Json::Object(fields) && n <= fields@.len(),
    ensures
        field_texts(value, n) == Seq::new(
            n,
            |k: int|
                quoted(value->Object_0@[k].0@) + seq![':'] + json_text(value->Object_0@[k].1),
        ),
        field_lines(value, n, indent) == Seq::new(
            n,
            |k: int|
                indent + quoted(value->Object_0@[k].0@) + ": "@ + pretty_in(
                    value->Object_0@[k].1,
                    indent,
                ),
        ),
    decreases n,
{
    if n > 0 {
        lemma_object_texts(value, (n - 1) as nat, indent);
    }
    assert(field_texts(value, n) =~= Seq::new(
        n,
        |k: int| quoted(value->Object_0@[k].0@) + seq![':'] + json_text(value->Object_0@[k].1),
    ));
    assert(field_lines(value, n, indent) =~= Seq::new(
        n,
        |k: int|
            indent + quoted(value->Object_0@[k].0@) + ": "@ + pretty_in(
                value->Object_0@[k].1,
                indent,
            ),
    ));
}

/// An array is written as all its items in order, between brackets: compactly with a comma between
/// each two, and laid out with each on a line of its own, two blanks further in.
pub proof fn an_array_is_written_item_by_item(items: Vec<Json>, indent: Seq<char>)
    requires
        items@.len() > 0,
    ensures
        json_text(Json::Array(items)) == seq!['['] + joined(
            Seq::new(items@.len(), |k: int| json_text(items@[k])),
            seq![','],
        ) + seq![']'],
        pretty_in(Json::Array(items), indent) == seq!['[', '\n'] + joined(
            Seq::new(
                items@.len(),
                |k: int|
                    indent + seq![' ', ' '] + pretty_in(items@[k], indent + seq![' ', ' ']),
            ),
            seq![',', '\n'],
        ) + seq!['\n'] + indent + seq![']'],
{
    reveal_strlit("  ");
    reveal_strlit("[\n");
    reveal_strlit(",\n");
    reveal_strlit("\n");
    reveal_strlit("]");
    assert("  "@ =~= seq![' ', ' ']);
    assert("[\n"@ =~= seq!['[', '\n']);
    assert(",\n"@ =~= seq![',', '\n']);
    assert("\n"@ =~= seq!['\n']);
    assert("]"@ =~= seq![']']);
    let value = Json::Array(items);
    let inner = indent + seq![' ', ' '];
    lemma_array_texts(value, items@.len(), inner);
    assert(item_texts(value, items@.len()) =~= Seq::new(
        items@.len(),
        |k: int| json_text(items@[k]),
    ));
    assert(item_lines(value, items@.len(), inner) =~= Seq::new(
        items@.len(),
        |k: int| indent + seq![' ', ' '] + pretty_in(items@[k], indent + seq![' ', ' ']),
    ));
}

/// An object is written as all its fields in order, between braces, each as its name, a colon and
/// its value: laid out with each on a line of its own, two blanks further in.
pub proof fn an_object_is_written_field_by_field(fields: Vec<(String, Json)>, indent: Seq<char>)
    requires
        fields@.len() > 0,
    ensures
        json_text(Json::Object(fields)) == seq!['{'] + joined(
            Seq::new(
                fields@.len(),
                |k: int| quoted(fields@[k].0@) + seq![':'] + json_text(fields@[k].1),
            ),
            seq![','],
        ) + seq!['}'],
        pretty_in(Json::Object(fields), indent) == seq!['{', '\n'] + joined(
            Seq::new(
                fields@.len(),
                |k: int|
                    indent + seq![' ', ' '] + quoted(fields@[k].0@) + seq![':', ' '] + pretty_in(
                        fields@[k].1,
                        indent + seq![' ', ' '],
                    ),
            ),
            seq![',', '\n'],
        ) + seq!['\n'] + indent + seq!['}'],
{
    reveal_strlit("  ");
    reveal_strlit("{\n");
    reveal_strlit(",\n");
    reveal_strlit("\n");
    reveal_strlit("}");
    reveal_strlit(": ");
    assert("  "@ =~= seq![' ', ' ']);
    assert("{\n"@ =~= seq!['{', '\n']);
    assert(",\n"@ =~= seq![',', '\n']);
    assert("\n"@ =~= seq!['\n']);
    assert("}"@ =~= seq!['}']);
    assert(": "@ =~= seq![':', ' ']);
    let value = Json::Object(fields);
    let inner = indent + seq![' ', ' '];
    lemma_object_texts(value, fields@.len(), inner);
    assert(field_texts(value, fields@.len()) =~= Seq::new(
        fields@.len(),
        |k: int| quoted(fields@[k].0@) + seq![':'] + json_text(fields@[k].1),
    ));
    assert(field_lines(value, fields@.len(), inner) =~= Seq::new(
        fields@.len(),
        |k: int|
            indent + seq![' ', ' '] + quoted(fields@[k].0@) + seq![':', ' '] + pretty_in(
                fields@[k].1,
                indent + seq![' ', ' '],
            ),
    ));
}

} // verus!
