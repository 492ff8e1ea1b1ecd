//! The interface to the streaming JSON tokenizer.
//!
//! The traversal engine consumes primitive JSON tokens from anything that
//! implements [`JsonEvents`]: the bundled tokenizer built on the
//! `json_event_parser` crate, a replay source holding a prepared vector of
//! tokens, or any other conforming SAX-style parser.

use vstd::prelude::*;

verus! {

/// A primitive JSON token. `T` is the text storage, usually `String`.
#[derive(Debug, Clone, PartialEq, Eq)]
pub enum JsonToken<T> {
    String(T),
    Number(T),
    Boolean(bool),
    Null,
    StartArray,
    EndArray,
    StartObject,
    EndObject,
    ObjectKey(T),
    Eof,
    Error { line: u64, col: u64, message: T },
    /// The source itself failed (an I/O fault, not a syntax problem):
    /// fatal for a traversal, whatever the error policy.
    Failed(T),
}

impl<T> JsonToken<T> {
    /// Whether this token is a leaf value: a string, number, boolean or null.
    pub open spec fn is_scalar(&self) -> bool {
        self is String || self is Number || self is Boolean || self is Null
    }
}

impl JsonToken<String> {
    /// An equal copy of this token.
    pub fn duplicate(&self) -> (r: JsonToken<String>)
        ensures
            r == *self,
    {
        match self {
            JsonToken::String(s) => JsonToken::String(s.clone()),
            JsonToken::Number(s) => JsonToken::Number(s.clone()),
            JsonToken::Boolean(b) => JsonToken::Boolean(*b),
            JsonToken::Null => JsonToken::Null,
            JsonToken::StartArray => JsonToken::StartArray,
            JsonToken::EndArray => JsonToken::EndArray,
            JsonToken::StartObject => JsonToken::StartObject,
            JsonToken::EndObject => JsonToken::EndObject,
            JsonToken::ObjectKey(s) => JsonToken::ObjectKey(s.clone()),
            JsonToken::Eof => JsonToken::Eof,
            JsonToken::Error { line, col, message } => JsonToken::Error {
                line: *line,
                col: *col,
                message: message.clone(),
            },
            JsonToken::Failed(s) => JsonToken::Failed(s.clone()),
        }
    }
}

/// A source of JSON parse events. All interfaces with a parser happen
/// through this.
///
/// `remaining` is the sequence of tokens the source will still yield, and
/// `next_event` pops exactly its front token; an exhausted source yields
/// `Eof` forever. A failure of the source itself is one of the tokens — a
/// `Failed` carrying the message — so what a source yields is a function
/// of `remaining` alone.
pub trait JsonEvents: Sized {
    spec fn remaining(&self) -> Seq<JsonToken<String>>;

    fn next_event(&mut self) -> (r: JsonToken<String>)
        ensures
            old(self).remaining().len() == 0 ==> {
                &&& final(self).remaining() == old(self).remaining()
                &&& r is Eof
            },
            old(self).remaining().len() > 0 ==> {
                &&& final(self).remaining() == old(self).remaining().drop_first()
                &&& r == old(self).remaining().first()
            },
    ;
}

/// A source that replays a prepared vector of tokens, for single-process
/// pipelines and tests.
pub struct VecSource {
    pub events: Vec<JsonToken<String>>,
    pub pos: usize,
}

impl VecSource {
    /// A source that will yield `events` front to back, then `Eof`.
    pub fn new(events: Vec<JsonToken<String>>) -> (r: VecSource)
        ensures
            r.remaining() == events@,
    {
        let r = VecSource { events, pos: 0 };
        proof {
            assert(r.events@.skip(0) =~= r.events@);
        }
        r
    }
}

impl JsonEvents for VecSource {
    open spec fn remaining(&self) -> Seq<JsonToken<String>> {
        if self.pos <= self.events@.len() {
            self.events@.skip(self.pos as int)
        } else {
            Seq::<JsonToken<String>>::empty()
        }
    }

    fn next_event(&mut self) -> (r: JsonToken<String>)
    {
        if self.pos < self.events.len() {
            let ev = self.events[self.pos].duplicate();
            self.pos = self.pos + 1;
            proof {
                assert(self.events@.skip(self.pos as int) =~= old(
                    self,
                ).events@.skip(old(self).pos as int).drop_first());
                assert(ev == old(self).events@.skip(old(self).pos as int).first());
            }
            ev
        } else {
            JsonToken::Eof
        }
    }
}

/// The event type of the `json_event_parser` crate, declared so wrappers
/// can take it; it stays opaque to the rest of the library.
#[verifier::external_type_specification]
#[verifier::external_body]
pub struct ExParserEvent<'a>(json_event_parser::JsonEvent<'a>);

/// Relies on the shape of `json_event_parser::JsonEvent`: each variant is
/// mapped to the library's token of the same name, with the text copied
/// into owned storage.
#[verifier::external_body]
fn convert_event(ev: json_event_parser::JsonEvent<'_>) -> (r: JsonToken<String>)
    ensures
        !(r is Error),
        !(r is Eof) ==> r.is_scalar() || r is StartArray || r is EndArray || r is StartObject
            || r is EndObject || r is ObjectKey,
{
    match ev {
        json_event_parser::JsonEvent::String(v) => JsonToken::String(v.to_string()),
        json_event_parser::JsonEvent::Number(v) => JsonToken::Number(v.to_string()),
        json_event_parser::JsonEvent::Boolean(v) => JsonToken::Boolean(v),
        json_event_parser::JsonEvent::Null => JsonToken::Null,
        json_event_parser::JsonEvent::StartArray => JsonToken::StartArray,
        json_event_parser::JsonEvent::EndArray => JsonToken::EndArray,
        json_event_parser::JsonEvent::StartObject => JsonToken::StartObject,
        json_event_parser::JsonEvent::EndObject => JsonToken::EndObject,
        json_event_parser::JsonEvent::ObjectKey(v) => JsonToken::ObjectKey(v.to_string()),
        json_event_parser::JsonEvent::Eof => JsonToken::Eof,
    }
}

/// A tokenizer over an owned byte buffer, built on
/// `json_event_parser::ReaderJsonParser`. Once fused — after an I/O-shaped
/// failure — it yields `Eof` forever.
#[verifier::external_body]
pub struct Tokenizer {
    inner: json_event_parser::ReaderJsonParser<std::io::Cursor<Vec<u8>>>,
    fused: bool,
}

/// The token stream of a JSON document given as bytes: what a conforming
/// streaming parser yields for it, syntax errors included as `Error`
/// tokens, up to and excluding the trailing `Eof` repetition.
pub uninterp spec fn json_tokens(bytes: Seq<u8>) -> Seq<JsonToken<String>>;

/// The tokens this tokenizer will still yield.
pub uninterp spec fn tokenizer_remaining(t: Tokenizer) -> Seq<JsonToken<String>>;

impl Tokenizer {
    /// A tokenizer that parses the given document bytes.
    ///
    /// Relies on `json_event_parser::ReaderJsonParser::new` and
    /// `with_max_buffer_size`: the parser yields the token stream of the
    /// bytes it reads, which for an owned buffer is a function of the
    /// bytes alone; lifting the internal buffer cap means a long token
    /// cannot trip the parser's own size error.
    #[verifier::external_body]
    pub fn from_bytes(bytes: Vec<u8>) -> (r: Tokenizer)
        ensures
            tokenizer_remaining(r) == json_tokens(bytes@),
    {
        let inner = json_event_parser::ReaderJsonParser::new(std::io::Cursor::new(bytes))
            .with_max_buffer_size(usize::MAX);
        Tokenizer { inner, fused: false }
    }
}

/// Relies on `json_event_parser::ReaderJsonParser::parse_next`: it yields
/// the next token of the document; a syntax error carries the zero-based
/// line and column of its location and a message, and each error follows
/// a consumed lexer token, so a finite buffer yields finitely many before
/// the trailing `Eof` repetition; reading from an owned cursor with an
/// unbounded parser buffer cannot fail with an I/O error, and if one were
/// ever reported the fuse turns every later call into `Eof`.
#[verifier::external_body]
fn tokenizer_next(t: &mut Tokenizer) -> (r: JsonToken<String>)
    ensures
        tokenizer_remaining(*old(t)).len() == 0 ==> {
            &&& tokenizer_remaining(*final(t)) == tokenizer_remaining(*old(t))
            &&& r is Eof
        },
        tokenizer_remaining(*old(t)).len() > 0 ==> {
            &&& tokenizer_remaining(*final(t)) == tokenizer_remaining(*old(t)).drop_first()
            &&& r == tokenizer_remaining(*old(t)).first()
        },
{
    if t.fused {
        return JsonToken::Eof;
    }
    match t.inner.parse_next() {
        Ok(ev) => convert_event(ev),
        Err(json_event_parser::JsonParseError::Syntax(e)) => {
            let start = e.location().start;
            JsonToken::Error { line: start.line, col: start.column, message: e.message().to_string() }
        },
        Err(json_event_parser::JsonParseError::Io(e)) => {
            t.fused = true;
            JsonToken::Failed(format!("{e:?}"))
        },
    }
}

impl JsonEvents for Tokenizer {
    open spec fn remaining(&self) -> Seq<JsonToken<String>> {
        tokenizer_remaining(*self)
    }

    fn next_event(&mut self) -> (r: JsonToken<String>)
    {
        tokenizer_next(self)
    }
}

} // verus!
