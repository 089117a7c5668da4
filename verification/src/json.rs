//! JSON documents as plain data.
//!
//! The venue wire formats are JSON. `serde_json` does the parsing;
//! the document it produces is converted, node for node, into
//! `JsonVal`, a tree of plain values that verified code can take
//! apart. Numbers keep their literal text and are read later with
//! the fixed-point parser.

use vstd::prelude::*;

verus! {

/// A JSON document as plain data: numbers carry their literal text,
/// objects keep their fields in document order.
pub enum JsonVal {
    Null,
    Bool(bool),
    Num(String),
    Str(String),
    Arr(Vec<JsonVal>),
    Obj(Vec<(String, JsonVal)>),
}

/// Name for the document that `serde_json` reads out of a text (or
/// nothing, when the text is not JSON): a function of the text alone.
pub uninterp spec fn json_of(s: Seq<char>) -> Option<JsonVal>;

/// First field with the given name, in document order.
pub open spec fn obj_lookup(fields: Seq<(String, JsonVal)>, key: Seq<char>) -> Option<JsonVal>
    decreases fields.len(),
{
    if fields.len() == 0 {
        None
    } else if fields[0].0@ == key {
        Some(fields[0].1)
    } else {
        obj_lookup(fields.drop_first(), key)
    }
}

/// Field of an object by name; nothing on any other kind of value.
pub open spec fn json_get(v: JsonVal, key: Seq<char>) -> Option<JsonVal> {
    match v {
        JsonVal::Obj(fields) => obj_lookup(fields@, key),
        _ => None,
    }
}

/// The string content, when the value is a string.
pub open spec fn json_str(v: JsonVal) -> Option<Seq<char>> {
    match v {
        JsonVal::Str(s) => Some(s@),
        _ => None,
    }
}

/// Whether two strings hold the same characters.
pub fn str_eq(a: &str, b: &str) -> (r: bool)
    ensures
        r == (a@ == b@),
{
    let n = a.unicode_len();
    if n != b.unicode_len() {
        return false;
    }
    let mut i: usize = 0;
    while i < n
        invariant
            0 <= i <= n,
            n == a@.len(),
            n == b@.len(),
            forall|k: int| 0 <= k < i ==> a@[k] == b@[k],
        decreases n - i,
    {
        if a.get_char(i) != b.get_char(i) {
            return false;
        }
        i += 1;
    }
    proof {
        assert(a@ =~= b@);
    }
    true
}

impl JsonVal {
    /// Field of an object by name, or nothing.
    pub fn get<'a>(&'a self, key: &str) -> (r: Option<&'a JsonVal>)
        ensures
            (r is Some) == (json_get(*self, key@) is Some),
            r matches Some(x) ==> json_get(*self, key@) == Some(*x),
    {
        match self {
            JsonVal::Obj(fields) => {
                let n = fields.len();
                let mut i: usize = 0;
                proof {
                    assert(fields@.skip(0) =~= fields@);
                }
                while i < n
                    invariant
                        0 <= i <= n,
                        n == fields@.len(),
                        *self == JsonVal::Obj(*fields),
                        obj_lookup(fields@, key@) == obj_lookup(fields@.skip(i as int), key@),
                    decreases n - i,
                {
                    proof {
                        assert(fields@.skip(i as int)[0] == fields@[i as int]);
                        assert(fields@.skip(i as int).drop_first() =~= fields@.skip(i as int + 1));
                    }
                    if str_eq(fields[i].0.as_str(), key) {
                        proof {
                            assert(fields@.skip(i as int)[0].0@ == key@);
                            assert(obj_lookup(fields@.skip(i as int), key@) == Some(
                                fields@[i as int].1,
                            ));
                        }
                        return Some(&fields[i].1);
                    }
                    i += 1;
                }
                proof {
                    assert(fields@.skip(n as int) =~= Seq::<(String, JsonVal)>::empty());
                }
                None
            },
            _ => None,
        }
    }

    /// The string content, when this is a string.
    pub fn as_str<'a>(&'a self) -> (r: Option<&'a String>)
        ensures
            (r is Some) == (json_str(*self) is Some),
            r matches Some(x) ==> json_str(*self) == Some(x@),
    {
        match self {
            JsonVal::Str(s) => Some(s),
            _ => None,
        }
    }

    /// The elements, when this is an array.
    pub fn as_arr<'a>(&'a self) -> (r: Option<&'a Vec<JsonVal>>)
        ensures
            (r is Some) == (*self is Arr),
            r matches Some(x) ==> *self == JsonVal::Arr(*x),
    {
        match self {
            JsonVal::Arr(items) => Some(items),
            _ => None,
        }
    }

    /// The literal text, when this is a number.
    pub fn as_num_text<'a>(&'a self) -> (r: Option<&'a String>)
        ensures
            (r is Some) == (*self is Num),
            r matches Some(x) ==> *self == JsonVal::Num(*x),
    {
        match self {
            JsonVal::Num(s) => Some(s),
            _ => None,
        }
    }
}

/// Relies on `serde_json::Value`: the parsed document type that
/// `convert_json` walks.
#[verifier::external_type_specification]
#[verifier::external_body]
pub struct ExValue(serde_json::Value);

/// Relies on `serde_json::Value`'s six variants: converts the parsed
/// document into the library's own tree, one arm per variant, moving
/// fields; a number becomes its literal text.
#[verifier::external_body]
fn convert_json(v: serde_json::Value) -> (r: JsonVal) {
    match v {
        serde_json::Value::Null => JsonVal::Null,
        serde_json::Value::Bool(b) => JsonVal::Bool(b),
        serde_json::Value::Number(n) => JsonVal::Num(format!("{}", n)),
        serde_json::Value::String(s) => JsonVal::Str(s),
        serde_json::Value::Array(a) => JsonVal::Arr(a.into_iter().map(convert_json).collect()),
        serde_json::Value::Object(m) => JsonVal::Obj(
            m.into_iter().map(|(k, x)| (k, convert_json(x))).collect(),
        ),
    }
}

/// Relies on `serde_json::from_str`: parses JSON text; the document
/// depends on the text alone, named `json_of`.
#[verifier::external_body]
pub fn json_from_text(s: &str) -> (r: Option<JsonVal>)
    ensures
        r == json_of(s@),
{
    serde_json::from_str::<serde_json::Value>(s).ok().map(convert_json)
}

} // verus!
