//! A tree of plain JSON values and verified accessors over it.
//!
//! Registry responses arrive as text; the surrounding program turns that text
//! into this tree, and the verified extraction logic works on the tree alone.

use vstd::prelude::*;
use crate::strutil::str_eq;

verus! {

/// One JSON value. Numbers the library cares about are unsigned integers;
/// any other number is kept only as the fact that a number stood there.
pub enum JsonValue {
    Null,
    Bool(bool),
    UInt(u64),
    OtherNumber,
    Str(String),
    Array(Vec<JsonValue>),
    Object(Vec<(String, JsonValue)>),
}

/// The value of the first field named `key`, if any.
pub open spec fn spec_obj_get(fields: Seq<(String, JsonValue)>, key: Seq<char>) -> Option<
    JsonValue,
>
    decreases fields.len(),
{
    if fields.len() == 0 {
        None
    } else if fields[0].0@ == key {
        Some(fields[0].1)
    } else {
        spec_obj_get(fields.skip(1), key)
    }
}

/// Field lookup: a value for `key` if `j` is an object with such a field.
pub open spec fn spec_get(j: JsonValue, key: Seq<char>) -> Option<JsonValue> {
    match j {
        JsonValue::Object(fields) => spec_obj_get(fields@, key),
        _ => None,
    }
}

/// The characters of `j` if it is a string.
pub open spec fn spec_as_str(j: Option<JsonValue>) -> Option<Seq<char>> {
    match j {
        Some(JsonValue::Str(s)) => Some(s@),
        _ => None,
    }
}

/// The value of `j` if it is an unsigned integer.
pub open spec fn spec_as_u64(j: Option<JsonValue>) -> Option<u64> {
    match j {
        Some(JsonValue::UInt(n)) => Some(n),
        _ => None,
    }
}

/// The value of `j` if it is a boolean.
pub open spec fn spec_as_bool(j: Option<JsonValue>) -> Option<bool> {
    match j {
        Some(JsonValue::Bool(b)) => Some(b),
        _ => None,
    }
}

proof fn lemma_obj_get_step(fields: Seq<(String, JsonValue)>, key: Seq<char>, i: int)
    requires
        0 <= i <= fields.len(),
        forall|j: int| 0 <= j < i ==> fields[j].0@ != key,
    ensures
        spec_obj_get(fields, key) == spec_obj_get(fields.skip(i), key),
    decreases i,
{
    if i > 0 {
        assert(fields[0].0@ != key);
        assert(forall|j: int| 0 <= j < i - 1 ==> fields.skip(1)[j] == fields[j + 1]);
        lemma_obj_get_step(fields.skip(1), key, i - 1);
        assert(fields.skip(1).skip(i - 1) =~= fields.skip(i));
    } else {
        assert(fields.skip(0) =~= fields);
    }
}

impl JsonValue {
    /// The value of the first field named `key`, when this is an object.
    pub fn get<'a>(&'a self, key: &str) -> (r: Option<&'a JsonValue>)
        ensures
            r matches Some(v) ==> spec_get(*self, key@) == Some(*v),
            r is None ==> spec_get(*self, key@) is None,
    {
        match self {
            JsonValue::Object(fields) => {
                let n = fields.len();
                let mut i: usize = 0;
                while i < n
                    invariant
                        *self == JsonValue::Object(*fields),
                        n == fields@.len(),
                        i <= n,
                        forall|j: int| 0 <= j < i ==> fields@[j].0@ != key@,
                    decreases n - i,
                {
                    let pair = &fields[i];
                    if str_eq(pair.0.as_str(), key) {
                        proof {
                            lemma_obj_get_step(fields@, key@, i as int);
                            assert(fields@.skip(i as int)[0] == fields@[i as int]);
                            assert(spec_obj_get(fields@.skip(i as int), key@) == Some(
                                fields@[i as int].1,
                            ));
                            assert(*self == JsonValue::Object(*fields));
                            assert(spec_get(*self, key@) == spec_obj_get(fields@, key@));
                        }
                        let r = &fields[i].1;
                        assert(*r == fields@[i as int].1);
                        return Some(r);
                    }
                    i += 1;
                }
                proof {
                    lemma_obj_get_step(fields@, key@, n as int);
                    assert(fields@.skip(n as int) =~= Seq::<(String, JsonValue)>::empty());
                }
                None
            },
            _ => None,
        }
    }

    /// The string below this value, when it is a string.
    pub fn as_str<'a>(&'a self) -> (r: Option<&'a String>)
        ensures
            r matches Some(s) ==> spec_as_str(Some(*self)) == Some(s@),
            r is None ==> spec_as_str(Some(*self)) is None,
    {
        match self {
            JsonValue::Str(s) => Some(s),
            _ => None,
        }
    }

    /// The integer below this value, when it is an unsigned integer.
    pub fn as_u64(&self) -> (r: Option<u64>)
        ensures
            r == spec_as_u64(Some(*self)),
    {
        match self {
            JsonValue::UInt(n) => Some(*n),
            _ => None,
        }
    }

    /// The boolean below this value, when it is a boolean.
    pub fn as_bool(&self) -> (r: Option<bool>)
        ensures
            r == spec_as_bool(Some(*self)),
    {
        match self {
            JsonValue::Bool(b) => Some(*b),
            _ => None,
        }
    }

    /// The elements below this value, when it is an array.
    pub fn as_array<'a>(&'a self) -> (r: Option<&'a Vec<JsonValue>>)
        ensures
            r matches Some(v) ==> *self matches JsonValue::Array(a) && a == *v,
            r is None ==> !(*self matches JsonValue::Array(_)),
    {
        match self {
            JsonValue::Array(a) => Some(a),
            _ => None,
        }
    }
}

} // verus!
