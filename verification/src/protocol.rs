//! Reading the answers of the KGS server: a JSON object whose `messages`
//! field lists the messages, each an object whose `type` field names it.

use vstd::prelude::*;

verus! {

/// A JSON value. Numbers keep their text; the fields of an object keep the
/// order they were read in.
#[derive(Debug, PartialEq, Eq)]
pub enum JsonValue {
    Null,
    Bool(bool),
    Number(String),
    Str(String),
    Array(Vec<JsonValue>),
    Object(Vec<(String, JsonValue)>),
}

/// Errors while talking to the server.
#[derive(Debug, PartialEq, Eq)]
pub enum KgsError {
    /// The answer is not what the protocol describes.
    ParsingError,
    /// The exchange with the server failed; the text says why.
    CommunicationError(String),
}

/// The value of the first field named `key`.
pub open spec fn field_of(fields: Seq<(String, JsonValue)>, key: Seq<char>) -> Option<JsonValue>
    decreases fields.len(),
{
    if fields.len() == 0 {
        None
    } else if fields[0].0@ == key {
        Some(fields[0].1)
    } else {
        field_of(fields.drop_first(), key)
    }
}

/// The position of the first field named `key` of an object.
pub fn field_index(fields: &Vec<(String, JsonValue)>, key: &String) -> (r: Option<usize>)
    ensures
        match r {
            Some(i) => i < fields@.len() && fields@[i as int].0@ == key@ && field_of(fields@, key@) == Some(fields@[i as int].1),
            None => field_of(fields@, key@) is None,
        },
{
    let n = fields.len();
    let mut i: usize = 0;
    assert(fields@.skip(0) =~= fields@);
    while i < n
        invariant
            n == fields@.len(),
            i <= n,
            field_of(fields@, key@) == field_of(fields@.skip(i as int), key@),
        decreases n - i,
    {
        proof {
            let rest = fields@.skip(i as int);
            assert(rest[0] == fields@[i as int]);
            assert(rest.drop_first() =~= fields@.skip(i + 1));
        }
        if fields[i].0 == *key {
            return Some(i);
        }
        i = i + 1;
    }
    proof {
        assert(fields@.skip(n as int) =~= Seq::<(String, JsonValue)>::empty());
    }
    None
}

/// The messages of a server answer: the `messages` field of the top object
/// when it is an array.
pub open spec fn kgs_messages_of(response: JsonValue) -> Result<Seq<JsonValue>, KgsError> {
    match response {
        JsonValue::Object(fields) => match field_of(fields@, "messages"@) {
            Some(JsonValue::Array(values)) => Ok(values@),
            _ => Err(KgsError::ParsingError),
        },
        _ => Err(KgsError::ParsingError),
    }
}

/// The messages contained in an answer of the server; `ParsingError` when the
/// answer is not an object with a `messages` array.
pub fn get_kgs_messages(response: JsonValue) -> (r: Result<Vec<JsonValue>, KgsError>)
    ensures
        match r {
            Ok(v) => kgs_messages_of(response) == Ok::<Seq<JsonValue>, KgsError>(v@),
            Err(e) => kgs_messages_of(response) == Err::<Seq<JsonValue>, KgsError>(e),
        },
{
    let key = String::from_str("messages");
    proof { reveal_strlit("messages"); }
    assert(key@ =~= "messages"@);
    match response {
        JsonValue::Object(fields) => {
            match field_index(&fields, &key) {
                Some(k) => {
                    let mut fields = fields;
                    let (_, value) = fields.remove(k);
                    match value {
                        JsonValue::Array(values) => Ok(values),
                        _ => Err(KgsError::ParsingError),
                    }
                },
                None => Err(KgsError::ParsingError),
            }
        },
        _ => Err(KgsError::ParsingError),
    }
}

#[verifier::external_type_specification]
#[verifier::external_body]
pub struct ExSerdeValue(serde_json::Value);

/// The JSON value `text` holds, as `serde_json` reads it; `None` when it is
/// not JSON.
pub uninterp spec fn spec_parse_json(text: Seq<char>) -> Option<JsonValue>;

/// Turns a `serde_json::Value` into the library's `JsonValue`, variant by
/// variant: a number keeps the text `serde_json` writes it as, an object
/// keeps its fields in the order `serde_json` iterates them.
#[verifier::external_body]
fn to_json_value(v: serde_json::Value) -> JsonValue {
    match v {
        serde_json::Value::Null => JsonValue::Null,
        serde_json::Value::Bool(b) => JsonValue::Bool(b),
        serde_json::Value::Number(n) => JsonValue::Number(n.to_string()),
        serde_json::Value::String(t) => JsonValue::Str(t),
        serde_json::Value::Array(a) => JsonValue::Array(a.into_iter().map(to_json_value).collect()),
        serde_json::Value::Object(m) => JsonValue::Object(m.into_iter().map(|(k, x)| (k, to_json_value(x))).collect()),
    }
}

/// Reads `text` with `serde_json::from_str` into a `serde_json::Value`. The
/// contract only names the result: it depends on `text` alone, and nothing
/// is claimed of how `serde_json` reads it.
#[verifier::external_body]
fn parse_json(text: &str) -> (r: Option<JsonValue>)
    ensures
        r == spec_parse_json(text@),
{
    serde_json::from_str::<serde_json::Value>(text).ok().map(to_json_value)
}

/// The messages contained in the text of an answer of the server;
/// `ParsingError` when the text is not JSON, or is not an object with a
/// `messages` array.
pub fn get_kgs_messages_text(response: &str) -> (r: Result<Vec<JsonValue>, KgsError>)
    ensures
        match spec_parse_json(response@) {
            None => r == Err::<Vec<JsonValue>, KgsError>(KgsError::ParsingError),
            Some(v) => match r {
                Ok(m) => kgs_messages_of(v) == Ok::<Seq<JsonValue>, KgsError>(m@),
                Err(e) => kgs_messages_of(v) == Err::<Seq<JsonValue>, KgsError>(e),
            },
        },
{
    match parse_json(response) {
        None => Err(KgsError::ParsingError),
        Some(v) => get_kgs_messages(v),
    }
}

/// The messages of an answer by type; a later message of the same type
/// replaces an earlier one.
pub struct MessagesMap {
    entries: Vec<(String, Vec<(String, JsonValue)>)>,
}

/// The map that inserting `entries` in order builds.
pub open spec fn entries_map(entries: Seq<(String, Vec<(String, JsonValue)>)>) -> Map<Seq<char>, Seq<(String, JsonValue)>>
    decreases entries.len(),
{
    if entries.len() == 0 {
        Map::empty()
    } else {
        entries_map(entries.drop_last()).insert(entries.last().0@, entries.last().1@)
    }
}

impl View for MessagesMap {
    type V = Map<Seq<char>, Seq<(String, JsonValue)>>;

    closed spec fn view(&self) -> Map<Seq<char>, Seq<(String, JsonValue)>> {
        entries_map(self.entries@)
    }
}

proof fn lemma_entries_map_at(s: Seq<(String, Vec<(String, JsonValue)>)>, k: Seq<char>, i: int)
    requires
        0 <= i < s.len(),
        s[i].0@ == k,
        forall|j: int| i < j < s.len() ==> (#[trigger] s[j]).0@ != k,
    ensures
        entries_map(s).contains_key(k),
        entries_map(s)[k] == s[i].1@,
    decreases s.len(),
{
    if i < s.len() - 1 {
        let p = s.drop_last();
        assert(p[i] == s[i]);
        assert forall|j: int| i < j < p.len() implies (#[trigger] p[j]).0@ != k by {
            assert(p[j] == s[j]);
        }
        lemma_entries_map_at(p, k, i);
    }
}

proof fn lemma_entries_map_absent(s: Seq<(String, Vec<(String, JsonValue)>)>, k: Seq<char>)
    requires
        forall|j: int| 0 <= j < s.len() ==> (#[trigger] s[j]).0@ != k,
    ensures
        !entries_map(s).contains_key(k),
    decreases s.len(),
{
    if s.len() > 0 {
        let p = s.drop_last();
        assert forall|j: int| 0 <= j < p.len() implies (#[trigger] p[j]).0@ != k by {
            assert(p[j] == s[j]);
        }
        lemma_entries_map_absent(p, k);
    }
}

impl MessagesMap {
    /// The message of type `key`, if any.
    pub fn get(&self, key: &String) -> (r: Option<&Vec<(String, JsonValue)>>)
        ensures
            match r {
                Some(v) => self@.contains_key(key@) && self@[key@] == v@,
                None => !self@.contains_key(key@),
            },
    {
        let n = self.entries.len();
        let mut i: usize = n;
        while i > 0
            invariant
                n == self.entries@.len(),
                i <= n,
                forall|j: int| i <= j < n ==> (#[trigger] self.entries@[j]).0@ != key@,
            decreases i,
        {
            if self.entries[i - 1].0 == *key {
                proof { lemma_entries_map_at(self.entries@, key@, i - 1); }
                return Some(&self.entries[i - 1].1);
            }
            i = i - 1;
        }
        proof { lemma_entries_map_absent(self.entries@, key@); }
        None
    }

    /// The messages in the order they were read, each with its type.
    pub fn entries(&self) -> (r: &Vec<(String, Vec<(String, JsonValue)>)>)
        ensures
            entries_map(r@) == self@,
    {
        &self.entries
    }
}

/// The type and fields of a message: an object with a `type` field that is
/// a string.
pub open spec fn message_type(m: JsonValue) -> Option<(Seq<char>, Vec<(String, JsonValue)>)> {
    match m {
        JsonValue::Object(fields) => match field_of(fields@, "type"@) {
            Some(JsonValue::Str(t)) => Some((t@, fields)),
            _ => None,
        },
        _ => None,
    }
}

/// The map of the messages by type, a later message replacing an earlier
/// one of the same type.
pub open spec fn messages_map_of(messages: Seq<JsonValue>) -> Map<Seq<char>, Seq<(String, JsonValue)>>
    decreases messages.len(),
{
    if messages.len() == 0 {
        Map::empty()
    } else {
        let (t, fields) = message_type(messages.last()).unwrap();
        messages_map_of(messages.drop_last()).insert(t, fields@)
    }
}

/// Maps each message to its type. Every message must be an object whose
/// `type` field is a string.
pub fn get_messages_map(messages: Vec<JsonValue>) -> (r: MessagesMap)
    requires
        forall|i: int| 0 <= i < messages@.len() ==> (#[trigger] message_type(messages@[i])) is Some,
    ensures
        r@ == messages_map_of(messages@),
{
    let ghost all = messages@;
    let type_key = String::from_str("type");
    proof { reveal_strlit("type"); }
    assert(type_key@ =~= "type"@);
    let n = messages.len();
    let mut rest = messages;
    let mut entries: Vec<(String, Vec<(String, JsonValue)>)> = Vec::new();
    let mut i: usize = 0;
    assert(all.skip(0) =~= all);
    while i < n
        invariant
            n == all.len(),
            i <= n,
            type_key@ == "type"@,
            forall|k: int| 0 <= k < all.len() ==> (#[trigger] message_type(all[k])) is Some,
            rest@ == all.skip(i as int),
            entries@.len() == i,
            entries_map(entries@) == messages_map_of(all.take(i as int)),
        decreases n - i,
    {
        let m = rest.remove(0);
        assert(m == all[i as int]);
        assert(rest@ =~= all.skip(i + 1));
        assert(message_type(all[i as int]) is Some);
        match m {
            JsonValue::Object(fields) => {
                let k = field_index(&fields, &type_key).unwrap();
                let name = match &fields[k].1 {
                    JsonValue::Str(t) => t.clone(),
                    _ => String::new(),
                };
                let ghost before = entries@;
                entries.push((name, fields));
                proof {
                    assert(all.take(i + 1).drop_last() =~= all.take(i as int));
                    assert(entries@.drop_last() =~= before);
                }
            },
            _ => {
                assert(false);
            },
        }
        i = i + 1;
    }
    assert(all.take(n as int) =~= all);
    MessagesMap { entries }
}

} // verus!
