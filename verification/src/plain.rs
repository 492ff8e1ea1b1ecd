//! The simplest visitor: it forwards every leaf token, unchanged, as a
//! value event.

use vstd::prelude::*;
use crate::handler::Handler;
use crate::jsonpath::JsonPath;
use crate::jsonpath::path_steps;
use crate::parser::JsonToken;
use crate::sender::Event;
use crate::sender::SendError;
use crate::sender::Sender;
use crate::sendpath::SendPath;

verus! {

/// Sends every leaf token as a copy of itself, with its path.
pub struct Plain {}

impl Plain {
    /// A plain visitor.
    pub fn new() -> (r: Plain)
        ensures
            r == (Plain {  }),
    {
        Plain {  }
    }
}

impl Handler<JsonToken<String>> for Plain {
    open spec fn match_path_spec(&self, path: Seq<crate::jsonpath::StepView>) -> bool {
        true
    }

    open spec fn sends(
        &self,
        path: Seq<crate::jsonpath::Step>,
        ev: JsonToken<String>,
        out: Event<JsonToken<String>>,
    ) -> bool {
        out matches Event::Value(p, t) && p.0@ == path && t == ev
    }

    fn match_path(&self, _path: &JsonPath) -> (r: bool)
        ensures
            r,
    {
        true
    }

    /// Sends exactly one value event holding the token itself.
    fn maybe_send_value<X: Sender<JsonToken<String>>>(
        &self,
        path: &JsonPath,
        ev: &JsonToken<String>,
        tx: &mut X,
    ) -> (r: Result<(), SendError>)
        ensures
            r is Ok ==> (final(tx).delivered().last() matches Event::Value(p, t) && p.0@
                == path_steps(*path) && t == *ev),
    {
        tx.send(Event::Value(SendPath::from_json_path(path), ev.duplicate()))
    }
}

} // verus!
