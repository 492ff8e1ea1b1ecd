//! Shredding: encoding each delivered leaf value as MessagePack bytes
//! keyed by its canonicalized path, and the file naming rule for the
//! per-path column files. Writing the files themselves is I/O and stays
//! outside the library.

use vstd::prelude::*;
use crate::handler::Handler;
use crate::jsonpath::JsonPath;
use crate::jsonpath::path_steps;
use crate::numbers::NumClass;
use crate::numbers::classify;
use crate::numbers::classify_number;
use crate::parser::JsonToken;
use crate::sender::Event;
use crate::sender::SendError;
use crate::sender::Sender;
use crate::sendpath::SendPath;
use crate::jsonpath::StepView;
use crate::sendpath::keys_of;

verus! {

/// The MessagePack encoding of a string.
pub uninterp spec fn msgpack_str(s: Seq<char>) -> Seq<u8>;

/// The MessagePack encoding of an unsigned integer.
pub uninterp spec fn msgpack_uint(n: u64) -> Seq<u8>;

/// The MessagePack encoding of a signed integer.
pub uninterp spec fn msgpack_sint(n: i64) -> Seq<u8>;

/// Relies on `rmp::encode::write_str`: it appends the MessagePack string
/// encoding of the text to the buffer; writing into a vector cannot fail.
#[verifier::external_body]
fn mp_write_str(buf: &mut Vec<u8>, s: &str)
    ensures
        final(buf)@ == old(buf)@ + msgpack_str(s@),
{
    rmp::encode::write_str(buf, s).unwrap();
}

/// Relies on `rmp::encode::write_uint`: it appends the MessagePack
/// encoding of the integer to the buffer; writing into a vector cannot
/// fail.
#[verifier::external_body]
fn mp_write_uint(buf: &mut Vec<u8>, n: u64)
    ensures
        final(buf)@ == old(buf)@ + msgpack_uint(n),
{
    rmp::encode::write_uint(buf, n).unwrap();
}

/// Relies on `rmp::encode::write_sint`: it appends the MessagePack
/// encoding of the integer to the buffer; writing into a vector cannot
/// fail.
#[verifier::external_body]
fn mp_write_sint(buf: &mut Vec<u8>, n: i64)
    ensures
        final(buf)@ == old(buf)@ + msgpack_sint(n),
{
    rmp::encode::write_sint(buf, n).unwrap();
}

/// Relies on `rmp::encode::write_bool`: a boolean is one marker byte,
/// `0xc3` for true and `0xc2` for false; writing into a vector cannot
/// fail.
#[verifier::external_body]
fn mp_write_bool(buf: &mut Vec<u8>, b: bool)
    ensures
        final(buf)@ == old(buf)@ + seq![
            if b {
                0xc3u8
            } else {
                0xc2u8
            },
        ],
{
    rmp::encode::write_bool(buf, b).unwrap();
}

/// Relies on `rmp::encode::write_nil`: nil is the single marker byte
/// `0xc0`; writing into a vector cannot fail.
#[verifier::external_body]
fn mp_write_nil(buf: &mut Vec<u8>)
    ensures
        final(buf)@ == old(buf)@ + seq![0xc0u8],
{
    rmp::encode::write_nil(buf).unwrap();
}

/// What `encode_to_msgpack` promises: the value event holds the exact
/// encoding of the scalar, and a value this library cannot encode — a
/// floating number, or a number that does not classify — becomes an
/// error event instead.
pub open spec fn encode_rel(
    steps: Seq<crate::jsonpath::Step>,
    ev: JsonToken<String>,
    r: Event<Vec<u8>>,
) -> bool {
    match ev {
        JsonToken::String(v) => r matches Event::Value(p, buf) && p.0@ == steps && buf@
            == msgpack_str(v@),
        JsonToken::Number(v) => match classify_number(v@) {
            NumClass::Unsigned(n) => r matches Event::Value(p, buf) && p.0@ == steps && buf@
                == msgpack_uint(n),
            NumClass::Signed(i) => r matches Event::Value(p, buf) && p.0@ == steps && buf@
                == msgpack_sint(i),
            _ => r matches Event::Error(p, _) && p.0@ == steps,
        },
        JsonToken::Boolean(b) => r matches Event::Value(p, buf) && p.0@ == steps && buf@ == seq![
            if b {
                0xc3u8
            } else {
                0xc2u8
            },
        ],
        JsonToken::Null => r matches Event::Value(p, buf) && p.0@ == steps && buf@
            == seq![0xc0u8],
        _ => true,
    }
}

/// Encodes one scalar token as MessagePack, paired with its path. A
/// floating number cannot be encoded here and is reported as a
/// recoverable error event; a consumer may encode it itself or skip the
/// leaf.
pub fn encode_to_msgpack(path: &JsonPath, ev: &JsonToken<String>) -> (r: Event<Vec<u8>>)
    requires
        ev.is_scalar(),
    ensures
        encode_rel(path_steps(*path), *ev, r),
{
    let send_path = SendPath::from_json_path(path);
    let mut buf: Vec<u8> = Vec::new();
    match ev {
        JsonToken::String(v) => {
            mp_write_str(&mut buf, v.as_str());
            proof {
                assert(buf@ =~= msgpack_str(v@));
            }
            Event::Value(send_path, buf)
        },
        JsonToken::Number(v) => {
            match classify(v.as_str()) {
                NumClass::Unsigned(n) => {
                    mp_write_uint(&mut buf, n);
                    proof {
                        assert(buf@ =~= msgpack_uint(n));
                    }
                    Event::Value(send_path, buf)
                },
                NumClass::Signed(i) => {
                    mp_write_sint(&mut buf, i);
                    proof {
                        assert(buf@ =~= msgpack_sint(i));
                    }
                    Event::Value(send_path, buf)
                },
                _ => Event::Error(send_path, "cannot encode this number here".to_owned()),
            }
        },
        JsonToken::Boolean(b) => {
            mp_write_bool(&mut buf, *b);
            proof {
                assert(buf@ =~= seq![
                    if *b {
                        0xc3u8
                    } else {
                        0xc2u8
                    },
                ]);
            }
            Event::Value(send_path, buf)
        },
        JsonToken::Null => {
            mp_write_nil(&mut buf);
            proof {
                assert(buf@ =~= seq![0xc0u8]);
            }
            Event::Value(send_path, buf)
        },
        _ => Event::Error(send_path, "not a scalar".to_owned()),
    }
}

/// Encodes leaf values as MessagePack and sends them on: the handler of
/// the shredding pipeline. It matches every path.
pub struct MsgPacker {}

impl MsgPacker {
    /// A packer.
    pub fn new() -> (r: MsgPacker)
        ensures
            r == (MsgPacker {  }),
    {
        MsgPacker {  }
    }
}

impl Handler<Vec<u8>> for MsgPacker {
    open spec fn match_path_spec(&self, path: Seq<crate::jsonpath::StepView>) -> bool {
        true
    }

    open spec fn sends(
        &self,
        path: Seq<crate::jsonpath::Step>,
        ev: JsonToken<String>,
        out: Event<Vec<u8>>,
    ) -> bool {
        encode_rel(path, ev, out)
    }

    fn match_path(&self, _path: &JsonPath) -> (r: bool)
        ensures
            r,
    {
        true
    }

    /// Sends exactly one event per scalar: the encoded value, or an error
    /// event for a value this library cannot encode.
    fn maybe_send_value<X: Sender<Vec<u8>>>(
        &self,
        path: &JsonPath,
        ev: &JsonToken<String>,
        tx: &mut X,
    ) -> (r: Result<(), SendError>)
        ensures
            r is Ok ==> encode_rel(path_steps(*path), *ev, final(tx).delivered().last()),
    {
        let event = encode_to_msgpack(path, ev);
        tx.send(event)
    }
}

/// Encodes one scalar token as MessagePack bytes, or nothing for a
/// value this library cannot encode (a floating or unclassifiable
/// number), which the caller may encode itself or skip.
pub fn encode_token(ev: &JsonToken<String>) -> (r: Option<Vec<u8>>)
    requires
        ev.is_scalar(),
    ensures
        (match *ev {
            JsonToken::String(v) => r matches Some(buf) && buf@ == msgpack_str(v@),
            JsonToken::Number(v) => match classify_number(v@) {
                NumClass::Unsigned(n) => r matches Some(buf) && buf@ == msgpack_uint(n),
                NumClass::Signed(i) => r matches Some(buf) && buf@ == msgpack_sint(i),
                _ => r is None,
            },
            JsonToken::Boolean(b) => r matches Some(buf) && buf@ == seq![
                if b {
                    0xc3u8
                } else {
                    0xc2u8
                },
            ],
            JsonToken::Null => r matches Some(buf) && buf@ == seq![0xc0u8],
            _ => true,
        }),
{
    let mut buf: Vec<u8> = Vec::new();
    match ev {
        JsonToken::String(v) => {
            mp_write_str(&mut buf, v.as_str());
            proof {
                assert(buf@ =~= msgpack_str(v@));
            }
            Some(buf)
        },
        JsonToken::Number(v) => {
            match classify(v.as_str()) {
                NumClass::Unsigned(n) => {
                    mp_write_uint(&mut buf, n);
                    proof {
                        assert(buf@ =~= msgpack_uint(n));
                    }
                    Some(buf)
                },
                NumClass::Signed(i) => {
                    mp_write_sint(&mut buf, i);
                    proof {
                        assert(buf@ =~= msgpack_sint(i));
                    }
                    Some(buf)
                },
                _ => None,
            }
        },
        JsonToken::Boolean(b) => {
            mp_write_bool(&mut buf, *b);
            proof {
                assert(buf@ =~= seq![
                    if *b {
                        0xc3u8
                    } else {
                        0xc2u8
                    },
                ]);
            }
            Some(buf)
        },
        JsonToken::Null => {
            mp_write_nil(&mut buf);
            proof {
                assert(buf@ =~= seq![0xc0u8]);
            }
            Some(buf)
        },
        _ => None,
    }
}

/// A character that may not stand in a file name is replaced.
pub open spec fn sanitize_char(c: char) -> char {
    if c == ' ' || c == '/' {
        '_'
    } else {
        c
    }
}

/// The rendered key texts joined by `.`; a path with no keys gets the
/// placeholder `_`.
pub open spec fn join_keys(s: Seq<StepView>) -> Seq<char>
    decreases s.len(),
{
    if s.len() == 0 {
        "_"@
    } else if s.len() == 1 {
        key_text(s.last())
    } else {
        join_keys(s.drop_last()) + "."@ + key_text(s.last())
    }
}

/// The text of one key step; a wildcard or index step has no text.
pub open spec fn key_text(s: StepView) -> Seq<char> {
    match s {
        StepView::Key(k) => k,
        StepView::Index(_) => Seq::<char>::empty(),
    }
}

/// The column-file name of a path: its `Key` steps joined by `.`, the
/// extension appended after a final `.`, and every space or `/` replaced
/// by `_`; an all-index path gets the placeholder `_`.
pub open spec fn spec_filename(p: Seq<StepView>, ext: Seq<char>) -> Seq<char> {
    (join_keys(keys_of(p)) + "."@ + ext).map_values(|c: char| sanitize_char(c))
}

/// Appends `s` to `out` with every space or `/` replaced by `_`.
#[verifier::loop_isolation(false)]
fn append_sanitized(out: &mut String, s: &str)
    ensures
        final(out)@ == old(out)@ + s@.map_values(|c: char| sanitize_char(c)),
{
    proof {
        reveal_strlit("_");
    }
    let n = s.unicode_len();
    let mut i: usize = 0;
    while i < n
        invariant
            i <= n,
            n == s@.len(),
            out@ == old(out)@ + s@.subrange(0, i as int).map_values(|c: char| sanitize_char(c)),
        decreases n - i,
    {
        let c = s.get_char(i);
        if c == ' ' || c == '/' {
            out.append("_");
        } else {
            let piece = s.substring_char(i, i + 1);
            out.append(piece);
        }
        i = i + 1;
        proof {
            assert(out@ =~= old(out)@ + s@.subrange(0, i as int).map_values(
                |c: char| sanitize_char(c),
            ));
        }
    }
    proof {
        assert(s@.subrange(0, n as int) =~= s@);
    }
}

/// Builds the column-file name for a path: `images/23423/image_name`
/// becomes `images.image_name.mpk`, index steps dropped, a `_`
/// placeholder when no key steps remain, and spaces and `/` rewritten to
/// `_`.
#[verifier::loop_isolation(false)]
pub fn filename_of_path(send_path: &SendPath, ext: &str) -> (r: String)
    ensures
        r@ == spec_filename(send_path@, ext@),
{
    proof {
        reveal_strlit("_");
        reveal_strlit(".");
    }
    let mut joined = String::new();
    let mut seen_key = false;
    let mut i: usize = 0;
    let ghost steps = send_path@;
    while i < send_path.0.len()
        invariant
            i <= send_path.0@.len(),
            steps == send_path@,
            steps.len() == send_path.0@.len(),
            seen_key == (keys_of(steps.subrange(0, i as int)).len() > 0),
            joined@ == (if seen_key {
                join_keys(keys_of(steps.subrange(0, i as int)))
            } else {
                Seq::<char>::empty()
            }),
        decreases send_path.0@.len() - i,
    {
        let ghost pre = steps.subrange(0, i as int);
        match &send_path.0[i] {
            crate::jsonpath::Step::Key(k) => {
                if seen_key {
                    joined.append(".");
                }
                joined.append(k.as_str());
                seen_key = true;
            },
            crate::jsonpath::Step::Index(_) => {},
        }
        i = i + 1;
        proof {
            let cur = steps.subrange(0, i as int);
            assert(cur.drop_last() =~= pre);
            assert(cur.last() == steps[i - 1]);
            assert(steps[i - 1] == send_path.0@[i - 1]@);
            if cur.last() is Key {
                assert(keys_of(cur) == keys_of(pre).push(cur.last()));
                if keys_of(pre).len() > 0 {
                    assert(keys_of(cur).drop_last() =~= keys_of(pre));
                    assert(joined@ =~= join_keys(keys_of(cur)));
                } else {
                    assert(keys_of(cur).len() == 1);
                    assert(joined@ =~= join_keys(keys_of(cur)));
                }
            }
        }
    }
    proof {
        assert(steps.subrange(0, steps.len() as int) =~= steps);
    }
    let mut base = String::new();
    if !seen_key {
        base.append("_");
    } else {
        base.append(joined.as_str());
    }
    base.append(".");
    base.append(ext);
    let mut out = String::new();
    append_sanitized(&mut out, base.as_str());
    proof {
        assert(base@ == join_keys(keys_of(steps)) + "."@ + ext@);
        assert(out@ =~= spec_filename(send_path@, ext@));
    }
    out
}

} // verus!
