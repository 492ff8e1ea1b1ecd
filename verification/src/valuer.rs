//! A visitor that converts each leaf token to a generic JSON value
//! (`serde_json::Value`) and sends it on.

use vstd::prelude::*;
use crate::handler::Handler;
use crate::jsonpath::JsonPath;
use crate::jsonpath::path_steps;
use crate::parser::JsonToken;
use crate::sender::Event;
use crate::sender::SendError;
use crate::sender::Sender;
use crate::sendpath::SendPath;

verus! {

/// The generic JSON value type of `serde_json`, declared so events can
/// carry it; it stays opaque to the library.
#[verifier::external_type_specification]
#[verifier::external_body]
pub struct ExSerdeValue(serde_json::Value);

/// The generic value holding a string with the given text.
pub uninterp spec fn sj_string_of(s: Seq<char>) -> serde_json::Value;

/// The generic value a number text parses to, if it is a number.
pub uninterp spec fn sj_number_of(s: Seq<char>) -> Option<serde_json::Value>;

/// The generic value holding a boolean.
pub uninterp spec fn sj_bool_of(b: bool) -> serde_json::Value;

/// The null generic value; the argument is immaterial.
pub uninterp spec fn sj_null_of(unit: bool) -> serde_json::Value;

/// Relies on `serde_json::Value::String`: the value holding this text.
#[verifier::external_body]
fn sj_string(s: &String) -> (r: serde_json::Value)
    ensures
        r == sj_string_of(s@),
{
    serde_json::Value::String(s.clone())
}

/// Relies on `serde_json::Number::from_str` and `serde_json::Value::Number`:
/// the numeric value of a number text, a function of the text alone, or
/// nothing when the text is not a JSON number.
#[verifier::external_body]
fn sj_number(s: &str) -> (r: Option<serde_json::Value>)
    ensures
        r == sj_number_of(s@),
{
    match s.parse::<serde_json::Number>() {
        Ok(n) => Some(serde_json::Value::Number(n)),
        Err(_) => None,
    }
}

/// Relies on `serde_json::Value::Bool`: the value holding this boolean.
#[verifier::external_body]
fn sj_bool(b: bool) -> (r: serde_json::Value)
    ensures
        r == sj_bool_of(b),
{
    serde_json::Value::Bool(b)
}

/// Relies on `serde_json::Value::Null`: the null value, a constant.
#[verifier::external_body]
fn sj_null() -> (r: serde_json::Value)
    ensures
        r == sj_null_of(true),
{
    serde_json::Value::Null
}

/// Converts leaf tokens to generic JSON values and sends them; a number
/// that does not parse becomes an error event instead.
pub struct Valuer {}

impl Valuer {
    /// A valuer.
    pub fn new() -> (r: Valuer)
        ensures
            r == (Valuer {  }),
    {
        Valuer {  }
    }
}

impl Handler<serde_json::Value> for Valuer {
    open spec fn match_path_spec(&self, path: Seq<crate::jsonpath::StepView>) -> bool {
        true
    }

    open spec fn sends(
        &self,
        path: Seq<crate::jsonpath::Step>,
        ev: JsonToken<String>,
        out: Event<serde_json::Value>,
    ) -> bool {
        match ev {
            JsonToken::String(v) => out matches Event::Value(p, x) && p.0@ == path && x
                == sj_string_of(v@),
            JsonToken::Number(v) => match sj_number_of(v@) {
                Some(n) => out matches Event::Value(p, x) && p.0@ == path && x == n,
                None => out matches Event::Error(p, _) && p.0@ == path,
            },
            JsonToken::Boolean(b) => out matches Event::Value(p, x) && p.0@ == path && x
                == sj_bool_of(b),
            JsonToken::Null => out matches Event::Value(p, x) && p.0@ == path && x == sj_null_of(
                true,
            ),
            _ => false,
        }
    }

    fn match_path(&self, _path: &JsonPath) -> (r: bool)
        ensures
            r,
    {
        true
    }

    /// Sends exactly one event per scalar: the converted value — a string
    /// keeps its text, a number is parsed from its text, a boolean and
    /// null map directly — or an error event for a number that does not
    /// parse.
    fn maybe_send_value<X: Sender<serde_json::Value>>(
        &self,
        path: &JsonPath,
        ev: &JsonToken<String>,
        tx: &mut X,
    ) -> (r: Result<(), SendError>)
    {
        let send_path = SendPath::from_json_path(path);
        match ev {
            JsonToken::String(v) => tx.send(Event::Value(send_path, sj_string(v))),
            JsonToken::Number(v) => {
                match sj_number(v.as_str()) {
                    Some(value) => tx.send(Event::Value(send_path, value)),
                    None => tx.send(Event::Error(send_path, "not a number".to_owned())),
                }
            },
            JsonToken::Boolean(b) => tx.send(Event::Value(send_path, sj_bool(*b))),
            _ => tx.send(Event::Value(send_path, sj_null())),
        }
    }
}

} // verus!
