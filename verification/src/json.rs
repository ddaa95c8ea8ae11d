//! Reading the entries of the JSON configuration: an entry as text, and an override's text
//! as a new value for an entry.

use crate::sd_req::{decimal_u64, parse_bool, signed_decimal, spec_decimal, spec_signed_decimal};
use crate::types::{parse_in_range_spec, str_to_i64};
use crate::unicode::spec_to_lowercase;
use vstd::prelude::*;

verus! {

/// A configuration entry, as much of it as the requestor reads.
#[derive(Debug, PartialEq, Eq)]
pub enum ConfigValue {
    Text(String),
    Bool(bool),
    /// A number: whether it is held as a float, and what reading it as an `i64`, as an `f64`
    /// (written as text) and as a `u64` gives.
    Number { is_float: bool, as_int: Option<i64>, as_float_text: Option<String>, as_uint: Option<u64> },
    /// An object, with its debug text.
    Object(String),
    Array,
    Null,
}

/// The text of an entry, trying in turn its string, boolean, `i64`, `f64`, `u64` and object
/// readings; `default` when none applies.
pub open spec fn spec_value_text(v: ConfigValue, default: Seq<char>) -> Seq<char> {
    match v {
        ConfigValue::Text(t) => t@,
        ConfigValue::Bool(b) => if b {
            "true"@
        } else {
            "false"@
        },
        ConfigValue::Number { is_float: _, as_int, as_float_text, as_uint } => match as_int {
            Some(i) => spec_signed_decimal(i as int),
            None => match as_float_text {
                Some(t) => t@,
                None => match as_uint {
                    Some(u) => spec_decimal(u as nat),
                    None => default,
                },
            },
        },
        ConfigValue::Object(t) => t@,
        ConfigValue::Array => default,
        ConfigValue::Null => default,
    }
}

/// The first entry named `name`, if any.
pub open spec fn lookup(fields: Seq<(String, ConfigValue)>, name: Seq<char>) -> Option<ConfigValue>
    decreases fields.len(),
{
    if fields.len() == 0 {
        None
    } else if fields[0].0@ == name {
        Some(fields[0].1)
    } else {
        lookup(fields.drop_first(), name)
    }
}

pub open spec fn spec_get_string(fields: Seq<(String, ConfigValue)>, name: Seq<char>, default: Seq<char>) -> Seq<
    char,
> {
    match lookup(fields, name) {
        Some(v) => spec_value_text(v, default),
        None => default,
    }
}

fn value_text(v: &ConfigValue, default: String) -> (r: String)
    ensures
        r@ == spec_value_text(*v, default@),
{
    proof {
        reveal_strlit("true");
        reveal_strlit("false");
    }
    match v {
        ConfigValue::Text(t) => t.clone(),
        ConfigValue::Bool(b) => if *b {
            String::from_str("true")
        } else {
            String::from_str("false")
        },
        ConfigValue::Number { is_float: _, as_int, as_float_text, as_uint } => match as_int {
            Some(i) => signed_decimal(*i),
            None => match as_float_text {
                Some(t) => t.clone(),
                None => match as_uint {
                    Some(u) => decimal_u64(*u),
                    None => default,
                },
            },
        },
        ConfigValue::Object(t) => t.clone(),
        ConfigValue::Array => default,
        ConfigValue::Null => default,
    }
}

/// The text of the configuration entry `name` of `fields` (the first one of that name);
/// `default` when there is none or it has no text reading.
pub fn get_string(fields: &Vec<(String, ConfigValue)>, name: String, default: String) -> (r: String)
    ensures
        r@ == spec_get_string(fields@, name@, default@),
{
    let mut i: usize = 0;
    assert(fields@.skip(0) =~= fields@);
    while i < fields.len()
        invariant
            0 <= i <= fields.len(),
            lookup(fields@, name@) == lookup(fields@.skip(i as int), name@),
        decreases fields.len() - i,
    {
        assert(fields@.skip(i as int).drop_first() =~= fields@.skip(i as int + 1));
        if fields[i].0 == name {
            return value_text(&fields[i].1, default);
        }
        i += 1;
    }
    assert(fields@.skip(i as int).len() == 0);
    default
}

/// What an override's text makes of a configuration entry.
#[derive(Debug, PartialEq, Eq)]
pub enum NewValue {
    Bool(bool),
    Int(i64),
    Text(String),
    /// The entry is held as a float: the text is to be read as an `f64`.
    Float,
    /// The entry is a boolean and the text is neither "true" nor "false" in any case.
    InvalidBool,
    /// The entry is a number and the text is no `i64`.
    InvalidI64,
    /// The entry is an object, an array or null: it becomes null.
    Null,
}

/// `r` is the new value of an entry like `o` from the text `v`: a boolean entry takes
/// "true" or "false" in any case, a float entry an `f64`, any other number an `i64`, and a
/// string entry the text itself.
pub open spec fn is_new_value(o: ConfigValue, v: Seq<char>, r: NewValue) -> bool {
    match o {
        ConfigValue::Bool(_) => r == (if spec_to_lowercase(v) == "true"@ {
            NewValue::Bool(true)
        } else if spec_to_lowercase(v) == "false"@ {
            NewValue::Bool(false)
        } else {
            NewValue::InvalidBool
        }),
        ConfigValue::Number { is_float, as_int: _, as_float_text: _, as_uint: _ } => r == (if is_float {
            NewValue::Float
        } else {
            match parse_in_range_spec(v, true, i64::MIN as int, i64::MAX as int) {
                Some(n) => NewValue::Int(n as i64),
                None => NewValue::InvalidI64,
            }
        }),
        ConfigValue::Text(_) => r matches NewValue::Text(t) && t@ == v,
        _ => r == NewValue::Null,
    }
}

/// Reads the override text `v` for an entry like `o`.
pub fn get_value(o: &ConfigValue, v: String) -> (r: NewValue)
    ensures
        is_new_value(*o, v@, r),
{
    proof {
        reveal_strlit("true");
        reveal_strlit("false");
        assert("true"@ =~= seq!['t', 'r', 'u', 'e']);
        assert("false"@ =~= seq!['f', 'a', 'l', 's', 'e']);
    }
    match o {
        ConfigValue::Bool(_) => match parse_bool(&v) {
            Some(b) => NewValue::Bool(b),
            None => NewValue::InvalidBool,
        },
        ConfigValue::Number { is_float, as_int: _, as_float_text: _, as_uint: _ } => if *is_float {
            NewValue::Float
        } else {
            let (ok, n) = str_to_i64(v);
            if ok {
                NewValue::Int(n)
            } else {
                NewValue::InvalidI64
            }
        },
        ConfigValue::Text(_) => NewValue::Text(v),
        _ => NewValue::Null,
    }
}

} // verus!
