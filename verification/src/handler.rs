//! The traversal engine: a mutually recursive state machine that consumes
//! tokens from a [`JsonEvents`] source, rebuilds the tree path
//! incrementally, and emits events through a [`Sender`].
//!
//! What the engine emits is pinned by a reference walk — [`walk_value`]
//! and its companions — a pure function from the token stream, the path,
//! and the error policy to the sequence of emissions: one leaf per scalar
//! at the path extended by its array index or object key, one reported
//! problem per parse error or misplaced token. On success the delivered
//! events realize that walk exactly, through each handler's own `sends`
//! relation.
//!
//! The engine never emits `Finished` from inside a traversal; the
//! [`traverse`] driver emits it exactly once, as the last event, whenever
//! the sender keeps accepting events — always, for an infallible sender.
//! Parse problems become `Error` events; whether the traversal then
//! continues or halts is the caller's [`ErrorPolicy`]. A failure of the
//! source itself is fatal whatever the policy.

use vstd::prelude::*;
use crate::jsonpath::JsonPath;
use crate::jsonpath::Step;
use crate::jsonpath::StepView;
use crate::sendpath::SendPath;
use crate::sendpath::views_of;
use crate::jsonpath::path_steps;
use crate::sender::Event;
use crate::sender::SendError;
use crate::sender::Sender;
use crate::parser::JsonEvents;
use crate::parser::JsonToken;
use crate::text::u64_to_string;
use crate::text::spec_digits;

verus! {

/// What to do after a syntax problem in the token stream: stop the
/// traversal, or skip past it and keep walking.
#[derive(Debug, Clone, Copy, PartialEq, Eq)]
pub enum ErrorPolicy {
    Halt,
    Continue,
}

/// How a sub-traversal ended: its value or container was walked to the
/// end, or the whole traversal must stop (end of stream, I/O failure, or
/// a syntax problem under the `Halt` policy).
#[derive(Debug, Clone, Copy, PartialEq, Eq)]
pub enum Flow {
    Done,
    Halted,
}

/// `post` extends `pre` and none of the appended events is `Finished`.
pub open spec fn extended_no_finished<V>(pre: Seq<Event<V>>, post: Seq<Event<V>>) -> bool {
    &&& post.len() >= pre.len()
    &&& post.subrange(0, pre.len() as int) == pre
    &&& forall|i: int| pre.len() <= i < post.len() ==> !(#[trigger] post[i] is Finished)
}

/// A log extends itself.
pub proof fn lemma_extended_refl<V>(a: Seq<Event<V>>)
    ensures
        extended_no_finished(a, a),
{
    assert(a.subrange(0, a.len() as int) =~= a);
}

/// Extending twice extends.
pub proof fn lemma_extended_trans<V>(a: Seq<Event<V>>, b: Seq<Event<V>>, c: Seq<Event<V>>)
    requires
        extended_no_finished(a, b),
        extended_no_finished(b, c),
    ensures
        extended_no_finished(a, c),
{
    assert forall|i: int| 0 <= i < a.len() implies c[i] == a[i] by {
        assert(b.subrange(0, a.len() as int)[i] == a[i]);
        assert(c.subrange(0, b.len() as int)[i] == b[i]);
    }
    assert(c.subrange(0, a.len() as int) =~= a);
    assert forall|i: int| a.len() <= i < c.len() implies !(#[trigger] c[i] is Finished) by {
        if i < b.len() {
            assert(c.subrange(0, b.len() as int)[i] == b[i]);
        }
    }
}

/// Appending one event that is not `Finished` extends.
pub proof fn lemma_extended_push<V>(pre: Seq<Event<V>>, cur: Seq<Event<V>>, ev: Event<V>)
    requires
        extended_no_finished(pre, cur),
        !(ev is Finished),
    ensures
        extended_no_finished(pre, cur.push(ev)),
{
    assert(cur.push(ev).subrange(0, pre.len() as int) =~= cur.subrange(0, pre.len() as int));
}

/// The pluggable part of the traversal: a path filter and the action
/// taken for each leaf value.
///
/// A handler is a visitor whose `accept` is `match_path` and whose
/// `visit` is `maybe_send_value`. `maybe_send_value` delivers exactly one
/// leaf-or-path event per scalar token it accepts — never `Finished` —
/// and `sends` says which events it may deliver for a given path and
/// token: that relation is what the traversal contracts carry upward.
pub trait Handler<V>: Sized {
    spec fn match_path_spec(&self, path: Seq<StepView>) -> bool;

    /// What this handler delivers for one scalar token at one path.
    spec fn sends(&self, path: Seq<Step>, ev: JsonToken<String>, out: Event<V>) -> bool;

    /// Whether values at this path should be materialized and sent.
    fn match_path(&self, path: &JsonPath) -> (r: bool)
        ensures
            r == self.match_path_spec(views_of(path_steps(*path))),
    ;

    /// Called for each leaf value, with the path that leads to it.
    fn maybe_send_value<X: Sender<V>>(
        &self,
        path: &JsonPath,
        ev: &JsonToken<String>,
        tx: &mut X,
    ) -> (r: Result<
        (),
        SendError,
    >)
        requires
            ev.is_scalar(),
        ensures
            old(tx).inv() ==> final(tx).inv(),
            old(tx).infallible() ==> r is Ok && final(tx).infallible(),
            r is Ok ==> {
                &&& final(tx).delivered().len() == old(tx).delivered().len() + 1
                &&& final(tx).delivered().drop_last() == old(tx).delivered()
                &&& !(final(tx).delivered().last() is Finished)
                &&& self.sends(path_steps(*path), *ev, final(tx).delivered().last())
            },
            r is Err ==> final(tx).delivered() == old(tx).delivered(),
    ;
}

/// `n + 1`, saturating at the largest value.
pub open spec fn one_based(n: u64) -> u64 {
    if n < u64::MAX {
        (n + 1) as u64
    } else {
        n
    }
}

/// The rendered text of a parse problem, with one-based line and column.
pub open spec fn parse_error_text(line: u64, col: u64, message: Seq<char>) -> Seq<char> {
    "error at "@ + spec_digits(one_based(line) as nat) + ":"@ + spec_digits(one_based(col) as nat)
        + ": "@ + message
}

/// Builds the text of a parse problem, as `error at line:col: message`
/// with one-based positions.
fn render_parse_error(line: u64, col: u64, message: &String) -> (r: String)
    ensures
        r@ == parse_error_text(line, col, message@),
{
    let line1: u64 = if line < u64::MAX { line + 1 } else { line };
    let col1: u64 = if col < u64::MAX { col + 1 } else { col };
    let mut r = String::new();
    r.append("error at ");
    let line_text = u64_to_string(line1);
    r.append(line_text.as_str());
    r.append(":");
    let col_text = u64_to_string(col1);
    r.append(col_text.as_str());
    r.append(": ");
    r.append(message.as_str());
    r
}

/// Sends an `Error` event carrying `message` at `path`.
fn send_error<V, X: Sender<V>>(path: &JsonPath, message: String, tx: &mut X) -> (r: Result<
    (),
    SendError,
>)
    ensures
        old(tx).inv() ==> final(tx).inv(),
        old(tx).infallible() ==> r is Ok && final(tx).infallible(),
        r is Ok ==> {
            &&& final(tx).delivered().len() == old(tx).delivered().len() + 1
            &&& final(tx).delivered().drop_last() == old(tx).delivered()
            &&& (final(tx).delivered().last() matches Event::Error(p, m) && p.0@ == path_steps(
                *path,
            ) && m == message)
        },
        r is Err ==> final(tx).delivered() == old(tx).delivered(),
{
    tx.send(Event::Error(SendPath::from_json_path(path), message))
}

/// One step of invariant maintenance: a log that grew by one non-`Finished`
/// event still extends the base log.
proof fn lemma_extended_step<V>(base: Seq<Event<V>>, pre: Seq<Event<V>>, post: Seq<Event<V>>)
    requires
        extended_no_finished(base, pre),
        post.len() == pre.len() + 1,
        post.drop_last() == pre,
        !(post.last() is Finished),
    ensures
        extended_no_finished(base, post),
{
    assert(post =~= pre.push(post.last()));
    lemma_extended_push(base, pre, post.last());
}


/// One abstract emission of the traversal: a leaf handed to the handler,
/// or a problem reported at a path.
pub enum Emission {
    Leaf(Seq<Step>, JsonToken<String>),
    Problem(Seq<Step>, Seq<char>),
}

/// Whether one delivered event realizes one emission: a leaf is whatever
/// the handler sends for that path and token; a problem is an error event
/// at that path carrying that text.
pub open spec fn emission_matches<V, H: Handler<V>>(h: H, em: Emission, ev: Event<V>) -> bool {
    match em {
        Emission::Leaf(p, t) => h.sends(p, t, ev),
        Emission::Problem(p, txt) => ev matches Event::Error(q, m) && q.0@ == p && m@ == txt,
    }
}

/// Whether the delivered events realize the emissions, one to one and in
/// order.
pub open spec fn events_match<V, H: Handler<V>>(h: H, ems: Seq<Emission>, evs: Seq<Event<V>>) -> bool {
    &&& evs.len() == ems.len()
    &&& forall|i: int| 0 <= i < ems.len() ==> emission_matches(h, ems[i], #[trigger] evs[i])
}

/// The text reported when nesting exceeds the configured limit.
pub open spec fn guard_text() -> Seq<char> {
    "nesting deeper than the configured limit"@
}

/// The text reported for a structural token in the wrong position.
pub open spec fn unexpected_text() -> Seq<char> {
    "unexpected token"@
}

/// Whether a halt-or-continue choice halts.
pub open spec fn halted_or_done(policy: ErrorPolicy) -> Flow {
    if policy is Halt {
        Flow::Halted
    } else {
        Flow::Done
    }
}

/// A leftover-token sequence, clamped so it never exceeds its origin;
/// the clamp never fires (see `lemma_walk_rest_len`) and only makes the
/// walk's termination measure self-evident.
pub open spec fn clamp_rest(
    rest: Seq<JsonToken<String>>,
    origin: Seq<JsonToken<String>>,
) -> Seq<JsonToken<String>> {
    if rest.len() <= origin.len() {
        rest
    } else {
        origin
    }
}

/// The reference walk of one JSON value: the emissions the traversal
/// makes, how it ends, and the tokens left — a pure function of the token
/// stream, the path, the depth, the error policy and the depth limit.
pub open spec fn walk_value(
    toks: Seq<JsonToken<String>>,
    path: Seq<Step>,
    depth: u64,
    policy: ErrorPolicy,
    max_depth: u64,
) -> (Seq<Emission>, Flow, Seq<JsonToken<String>>)
    decreases toks.len(), 3int,
{
    if toks.len() == 0 {
        (Seq::<Emission>::empty(), Flow::Halted, toks)
    } else {
        let t = toks.first();
        let rest = toks.drop_first();
        match t {
            JsonToken::String(_) | JsonToken::Number(_) | JsonToken::Boolean(_)
            | JsonToken::Null => (seq![Emission::Leaf(path, t)], Flow::Done, rest),
            JsonToken::StartArray => walk_array(rest, path, one_based(depth), policy, max_depth),
            JsonToken::StartObject => walk_object(rest, path, one_based(depth), policy, max_depth),
            JsonToken::Eof => (Seq::<Emission>::empty(), Flow::Halted, rest),
            JsonToken::Error { line, col, message } => (
                seq![Emission::Problem(path, parse_error_text(line, col, message@))],
                halted_or_done(policy),
                rest,
            ),
            JsonToken::Failed(m) => (seq![Emission::Problem(path, m@)], Flow::Halted, rest),
            JsonToken::EndArray | JsonToken::EndObject | JsonToken::ObjectKey(_) => (
                seq![Emission::Problem(path, unexpected_text())],
                halted_or_done(policy),
                rest,
            ),
        }
    }
}

/// The reference walk of an array whose opening token was just consumed:
/// the depth guard, then the elements.
pub open spec fn walk_array(
    toks: Seq<JsonToken<String>>,
    path: Seq<Step>,
    depth: u64,
    policy: ErrorPolicy,
    max_depth: u64,
) -> (Seq<Emission>, Flow, Seq<JsonToken<String>>)
    decreases toks.len(), 2int,
{
    if depth > max_depth {
        (seq![Emission::Problem(path, guard_text())], Flow::Halted, toks)
    } else {
        walk_elems(toks, path, one_based(depth), policy, max_depth, 0)
    }
}

/// The reference walk of an array's elements: element `index` first, then
/// the rest, until the closing token or a halt.
#[verifier::opaque]
pub open spec fn walk_elems(
    toks: Seq<JsonToken<String>>,
    path: Seq<Step>,
    depth: u64,
    policy: ErrorPolicy,
    max_depth: u64,
    index: u64,
) -> (Seq<Emission>, Flow, Seq<JsonToken<String>>)
    decreases toks.len(), 1int,
{
    if toks.len() == 0 {
        (Seq::<Emission>::empty(), Flow::Halted, toks)
    } else {
        let t = toks.first();
        let rest = toks.drop_first();
        let loop_path = path.push(Step::Index(index));
        match t {
            JsonToken::String(_) | JsonToken::Number(_) | JsonToken::Boolean(_)
            | JsonToken::Null => {
                let (ems, flow, out) = walk_elems(
                    rest,
                    path,
                    depth,
                    policy,
                    max_depth,
                    one_based(index),
                );
                (seq![Emission::Leaf(loop_path, t)] + ems, flow, out)
            },
            JsonToken::StartArray => {
                let (e1, f1, r1) = walk_array(rest, loop_path, depth, policy, max_depth);
                if f1 is Done {
                    let (e2, f2, r2) = walk_elems(
                        clamp_rest(r1, rest),
                        path,
                        depth,
                        policy,
                        max_depth,
                        one_based(index),
                    );
                    (e1 + e2, f2, r2)
                } else {
                    (e1, Flow::Halted, r1)
                }
            },
            JsonToken::StartObject => {
                let (e1, f1, r1) = walk_object(rest, loop_path, depth, policy, max_depth);
                if f1 is Done {
                    let (e2, f2, r2) = walk_elems(
                        clamp_rest(r1, rest),
                        path,
                        depth,
                        policy,
                        max_depth,
                        one_based(index),
                    );
                    (e1 + e2, f2, r2)
                } else {
                    (e1, Flow::Halted, r1)
                }
            },
            JsonToken::EndArray => (Seq::<Emission>::empty(), Flow::Done, rest),
            JsonToken::Eof => (Seq::<Emission>::empty(), Flow::Halted, rest),
            JsonToken::Error { line, col, message } => {
                let em = Emission::Problem(loop_path, parse_error_text(line, col, message@));
                if policy is Halt {
                    (seq![em], Flow::Halted, rest)
                } else {
                    let (ems, flow, out) = walk_elems(
                        rest,
                        path,
                        depth,
                        policy,
                        max_depth,
                        one_based(index),
                    );
                    (seq![em] + ems, flow, out)
                }
            },
            JsonToken::Failed(m) => (seq![Emission::Problem(path, m@)], Flow::Halted, rest),
            JsonToken::EndObject | JsonToken::ObjectKey(_) => {
                let em = Emission::Problem(loop_path, unexpected_text());
                if policy is Halt {
                    (seq![em], Flow::Halted, rest)
                } else {
                    let (ems, flow, out) = walk_elems(
                        rest,
                        path,
                        depth,
                        policy,
                        max_depth,
                        one_based(index),
                    );
                    (seq![em] + ems, flow, out)
                }
            },
        }
    }
}

/// The reference walk of an object whose opening token was just consumed:
/// the depth guard, then the members.
pub open spec fn walk_object(
    toks: Seq<JsonToken<String>>,
    path: Seq<Step>,
    depth: u64,
    policy: ErrorPolicy,
    max_depth: u64,
) -> (Seq<Emission>, Flow, Seq<JsonToken<String>>)
    decreases toks.len(), 2int,
{
    if depth > max_depth {
        (seq![Emission::Problem(path, guard_text())], Flow::Halted, toks)
    } else {
        walk_members(toks, path, one_based(depth), policy, max_depth)
    }
}

/// The reference walk of an object's members: each key's value at the
/// path extended by the key, until the closing token or a halt.
#[verifier::opaque]
pub open spec fn walk_members(
    toks: Seq<JsonToken<String>>,
    path: Seq<Step>,
    depth: u64,
    policy: ErrorPolicy,
    max_depth: u64,
) -> (Seq<Emission>, Flow, Seq<JsonToken<String>>)
    decreases toks.len(), 1int,
{
    if toks.len() == 0 {
        (Seq::<Emission>::empty(), Flow::Halted, toks)
    } else {
        let t = toks.first();
        let rest = toks.drop_first();
        match t {
            JsonToken::String(_) | JsonToken::Number(_) | JsonToken::Boolean(_)
            | JsonToken::Null => {
                let (ems, flow, out) = walk_members(rest, path, depth, policy, max_depth);
                (seq![Emission::Leaf(path, t)] + ems, flow, out)
            },
            JsonToken::ObjectKey(k) => {
                let member = path.push(Step::Key(k));
                let (e1, f1, r1) = walk_value(rest, member, depth, policy, max_depth);
                if f1 is Done {
                    let (e2, f2, r2) = walk_members(
                        clamp_rest(r1, rest),
                        path,
                        depth,
                        policy,
                        max_depth,
                    );
                    (e1 + e2, f2, r2)
                } else {
                    (e1, Flow::Halted, r1)
                }
            },
            JsonToken::StartArray => {
                let (e1, f1, r1) = walk_array(rest, path, depth, policy, max_depth);
                if f1 is Done {
                    let (e2, f2, r2) = walk_members(
                        clamp_rest(r1, rest),
                        path,
                        depth,
                        policy,
                        max_depth,
                    );
                    (e1 + e2, f2, r2)
                } else {
                    (e1, Flow::Halted, r1)
                }
            },
            JsonToken::StartObject => {
                let (e1, f1, r1) = walk_object(rest, path, depth, policy, max_depth);
                if f1 is Done {
                    let (e2, f2, r2) = walk_members(
                        clamp_rest(r1, rest),
                        path,
                        depth,
                        policy,
                        max_depth,
                    );
                    (e1 + e2, f2, r2)
                } else {
                    (e1, Flow::Halted, r1)
                }
            },
            JsonToken::EndObject => (Seq::<Emission>::empty(), Flow::Done, rest),
            JsonToken::Eof => (Seq::<Emission>::empty(), Flow::Halted, rest),
            JsonToken::Error { line, col, message } => {
                let em = Emission::Problem(path, parse_error_text(line, col, message@));
                if policy is Halt {
                    (seq![em], Flow::Halted, rest)
                } else {
                    let (ems, flow, out) = walk_members(rest, path, depth, policy, max_depth);
                    (seq![em] + ems, flow, out)
                }
            },
            JsonToken::Failed(m) => (seq![Emission::Problem(path, m@)], Flow::Halted, rest),
            JsonToken::EndArray => {
                let em = Emission::Problem(path, unexpected_text());
                if policy is Halt {
                    (seq![em], Flow::Halted, rest)
                } else {
                    let (ems, flow, out) = walk_members(rest, path, depth, policy, max_depth);
                    (seq![em] + ems, flow, out)
                }
            },
        }
    }
}

/// A walk never leaves more tokens than it was given, so the clamp in its
/// definition never fires, and a walk that ends `Done` consumed at least
/// one token.
pub proof fn lemma_walk_rest_len(
    toks: Seq<JsonToken<String>>,
    path: Seq<Step>,
    depth: u64,
    policy: ErrorPolicy,
    max_depth: u64,
    index: u64,
    which: int,
)
    ensures
        which == 0 ==> {
            let (ems, flow, rest) = walk_value(toks, path, depth, policy, max_depth);
            rest.len() <= toks.len() && (flow is Done ==> rest.len() < toks.len())
        },
        which == 1 ==> {
            let (ems, flow, rest) = walk_array(toks, path, depth, policy, max_depth);
            rest.len() <= toks.len() && (flow is Done ==> rest.len() < toks.len())
        },
        which == 2 ==> {
            let (ems, flow, rest) = walk_elems(toks, path, depth, policy, max_depth, index);
            rest.len() <= toks.len() && (flow is Done ==> rest.len() < toks.len())
        },
        which == 3 ==> {
            let (ems, flow, rest) = walk_object(toks, path, depth, policy, max_depth);
            rest.len() <= toks.len() && (flow is Done ==> rest.len() < toks.len())
        },
        which == 4 ==> {
            let (ems, flow, rest) = walk_members(toks, path, depth, policy, max_depth);
            rest.len() <= toks.len() && (flow is Done ==> rest.len() < toks.len())
        },
    decreases toks.len(), (if which == 0 {
        3int
    } else if which == 1 || which == 3 {
        2int
    } else {
        1int
    }),
{
    reveal(walk_value);
    reveal(walk_array);
    reveal(walk_elems);
    reveal(walk_object);
    reveal(walk_members);
    if which == 0 {
        if toks.len() > 0 {
            let rest = toks.drop_first();
            match toks.first() {
                JsonToken::StartArray => {
                    lemma_walk_rest_len(rest, path, one_based(depth), policy, max_depth, 0, 1);
                },
                JsonToken::StartObject => {
                    lemma_walk_rest_len(rest, path, one_based(depth), policy, max_depth, 0, 3);
                },
                _ => {},
            }
        }
    } else if which == 1 {
        if !(depth > max_depth) {
            lemma_walk_rest_len(toks, path, one_based(depth), policy, max_depth, 0, 2);
        }
    } else if which == 3 {
        if !(depth > max_depth) {
            lemma_walk_rest_len(toks, path, one_based(depth), policy, max_depth, index, 4);
        }
    } else if which == 2 {
        if toks.len() > 0 {
            let rest = toks.drop_first();
            let loop_path = path.push(Step::Index(index));
            match toks.first() {
                JsonToken::String(_) | JsonToken::Number(_) | JsonToken::Boolean(_)
                | JsonToken::Null => {
                    lemma_walk_rest_len(rest, path, depth, policy, max_depth, one_based(index), 2);
                },
                JsonToken::StartArray => {
                    lemma_walk_rest_len(rest, loop_path, depth, policy, max_depth, 0, 1);
                    let (e1, f1, r1) = walk_array(rest, loop_path, depth, policy, max_depth);
                    if f1 is Done {
                        lemma_walk_rest_len(
                            clamp_rest(r1, rest),
                            path,
                            depth,
                            policy,
                            max_depth,
                            one_based(index),
                            2,
                        );
                    }
                },
                JsonToken::StartObject => {
                    lemma_walk_rest_len(rest, loop_path, depth, policy, max_depth, 0, 3);
                    let (e1, f1, r1) = walk_object(rest, loop_path, depth, policy, max_depth);
                    if f1 is Done {
                        lemma_walk_rest_len(
                            clamp_rest(r1, rest),
                            path,
                            depth,
                            policy,
                            max_depth,
                            one_based(index),
                            2,
                        );
                    }
                },
                JsonToken::Error { .. } | JsonToken::EndObject | JsonToken::ObjectKey(_) => {
                    if !(policy is Halt) {
                        lemma_walk_rest_len(
                            rest,
                            path,
                            depth,
                            policy,
                            max_depth,
                            one_based(index),
                            2,
                        );
                    }
                },
                _ => {},
            }
        }
    } else if which == 4 {
        if toks.len() > 0 {
            let rest = toks.drop_first();
            match toks.first() {
                JsonToken::String(_) | JsonToken::Number(_) | JsonToken::Boolean(_)
                | JsonToken::Null => {
                    lemma_walk_rest_len(rest, path, depth, policy, max_depth, index, 4);
                },
                JsonToken::ObjectKey(k) => {
                    let member = path.push(Step::Key(k));
                    lemma_walk_rest_len(rest, member, depth, policy, max_depth, index, 0);
                    let (e1, f1, r1) = walk_value(rest, member, depth, policy, max_depth);
                    if f1 is Done {
                        lemma_walk_rest_len(
                            clamp_rest(r1, rest),
                            path,
                            depth,
                            policy,
                            max_depth,
                            index,
                            4,
                        );
                    }
                },
                JsonToken::StartArray => {
                    lemma_walk_rest_len(rest, path, depth, policy, max_depth, 0, 1);
                    let (e1, f1, r1) = walk_array(rest, path, depth, policy, max_depth);
                    if f1 is Done {
                        lemma_walk_rest_len(
                            clamp_rest(r1, rest),
                            path,
                            depth,
                            policy,
                            max_depth,
                            index,
                            4,
                        );
                    }
                },
                JsonToken::StartObject => {
                    lemma_walk_rest_len(rest, path, depth, policy, max_depth, 0, 3);
                    let (e1, f1, r1) = walk_object(rest, path, depth, policy, max_depth);
                    if f1 is Done {
                        lemma_walk_rest_len(
                            clamp_rest(r1, rest),
                            path,
                            depth,
                            policy,
                            max_depth,
                            index,
                            4,
                        );
                    }
                },
                JsonToken::Error { .. } | JsonToken::EndArray => {
                    if !(policy is Halt) {
                        lemma_walk_rest_len(rest, path, depth, policy, max_depth, index, 4);
                    }
                },
                _ => {},
            }
        }
    }
}

/// Matched emissions extend one by one.
proof fn lemma_events_match_push<V, H: Handler<V>>(
    h: H,
    ems: Seq<Emission>,
    evs: Seq<Event<V>>,
    em: Emission,
    ev: Event<V>,
)
    requires
        events_match(h, ems, evs),
        emission_matches(h, em, ev),
    ensures
        events_match(h, ems.push(em), evs.push(ev)),
{
    assert forall|i: int| 0 <= i < ems.push(em).len() implies emission_matches(
        h,
        ems.push(em)[i],
        #[trigger] evs.push(ev)[i],
    ) by {
        if i < ems.len() {
            assert(emission_matches(h, ems[i], evs[i]));
        }
    }
}

/// Matched emissions concatenate.
proof fn lemma_events_match_app<V, H: Handler<V>>(
    h: H,
    ems1: Seq<Emission>,
    evs1: Seq<Event<V>>,
    ems2: Seq<Emission>,
    evs2: Seq<Event<V>>,
)
    requires
        events_match(h, ems1, evs1),
        events_match(h, ems2, evs2),
    ensures
        events_match(h, ems1 + ems2, evs1 + evs2),
{
    assert forall|i: int| 0 <= i < (ems1 + ems2).len() implies emission_matches(
        h,
        (ems1 + ems2)[i],
        #[trigger] (evs1 + evs2)[i],
    ) by {
        if i < ems1.len() {
            assert(emission_matches(h, ems1[i], evs1[i]));
        } else {
            assert(emission_matches(h, ems2[i - ems1.len()], evs2[i - ems1.len()]));
        }
    }
}

/// A log that extends another splits at any earlier cut.
proof fn lemma_skip_split<V>(a: Seq<Event<V>>, b: Seq<Event<V>>, n: int)
    requires
        0 <= n <= a.len(),
        a.len() <= b.len(),
        b.subrange(0, a.len() as int) == a,
    ensures
        b.skip(n) == a.skip(n) + b.skip(a.len() as int),
{
    assert forall|i: int| 0 <= i < a.len() implies b[i] == a[i] by {
        assert(b.subrange(0, a.len() as int)[i] == a[i]);
    }
    assert(b.skip(n) =~= a.skip(n) + b.skip(a.len() as int));
}

/// After one accepted send, the appended slice grows by that one event.
proof fn lemma_appended_one<V>(pre: Seq<Event<V>>, post: Seq<Event<V>>, n: int)
    requires
        0 <= n <= pre.len(),
        post.len() == pre.len() + 1,
        post.drop_last() == pre,
    ensures
        post.skip(n) == pre.skip(n).push(post.last()),
{
    assert forall|i: int| 0 <= i < pre.len() implies post[i] == pre[i] by {
        assert(post.drop_last()[i] == pre[i]);
    }
    assert(post.skip(n) =~= pre.skip(n).push(post.last()));
}

/// Walks one JSON value: a scalar goes to the handler, a container is
/// traversed recursively, and the end of the stream, a source failure, or
/// a syntax problem under the `Halt` policy stops the walk. On success the
/// emitted events realize exactly the reference walk of the consumed
/// tokens.
pub fn traverse_value<V, X: Sender<V>, S: JsonEvents, H: Handler<V>>(
    h: &H,
    src: &mut S,
    parents: JsonPath,
    depth: u64,
    tx: &mut X,
    policy: ErrorPolicy,
    max_depth: u64,
) -> (r: Result<Flow, SendError>)
    ensures
        old(tx).inv() ==> final(tx).inv(),
        old(tx).infallible() ==> r is Ok && final(tx).infallible(),
        extended_no_finished(old(tx).delivered(), final(tx).delivered()),
        final(src).remaining().len() <= old(src).remaining().len(),
        ({
            let (ems, flow, rest) = walk_value(
                old(src).remaining(),
                path_steps(parents),
                depth,
                policy,
                max_depth,
            );
            r matches Ok(f) ==> f == flow && final(src).remaining() == rest && events_match(
                *h,
                ems,
                final(tx).delivered().skip(old(tx).delivered().len() as int),
            )
        }),
    decreases src.remaining().len(), 2int,
{
    let ghost toks0 = src.remaining();
    let ghost p0 = path_steps(parents);
    let ghost log0 = tx.delivered();
    proof {
        reveal(walk_value);
        lemma_extended_refl(log0);
        assert(log0.skip(log0.len() as int) =~= Seq::<Event<V>>::empty());
    }
    let d2: u64 = if depth < u64::MAX {
        depth + 1
    } else {
        depth
    };
    let ev = src.next_event();
    match &ev {
        JsonToken::String(_) | JsonToken::Number(_) | JsonToken::Boolean(_) | JsonToken::Null => {
            match h.maybe_send_value(&parents, &ev, tx) {
                Ok(()) => {
                    proof {
                        lemma_extended_step(log0, log0, tx.delivered());
                        lemma_appended_one(log0, tx.delivered(), log0.len() as int);
                        lemma_events_match_push(
                            *h,
                            Seq::<Emission>::empty(),
                            Seq::<Event<V>>::empty(),
                            Emission::Leaf(p0, ev),
                            tx.delivered().last(),
                        );
                        assert(Seq::<Emission>::empty().push(Emission::Leaf(p0, ev)) =~= seq![
                            Emission::Leaf(p0, ev),
                        ]);
                    }
                    Ok(Flow::Done)
                },
                Err(e) => Err(e),
            }
        },
        JsonToken::StartArray => traverse_array(h, src, parents, d2, tx, policy, max_depth),
        JsonToken::StartObject => traverse_object(h, src, parents, d2, tx, policy, max_depth),
        JsonToken::Eof => {
            proof {
                assert(tx.delivered().skip(log0.len() as int) =~= Seq::<Event<V>>::empty());
            }
            Ok(Flow::Halted)
        },
        JsonToken::Error { line, col, message } => {
            let text = render_parse_error(*line, *col, message);
            match send_error(&parents, text, tx) {
                Ok(()) => {
                    proof {
                        lemma_extended_step(log0, log0, tx.delivered());
                        lemma_appended_one(log0, tx.delivered(), log0.len() as int);
                    }
                    match policy {
                        ErrorPolicy::Halt => Ok(Flow::Halted),
                        ErrorPolicy::Continue => Ok(Flow::Done),
                    }
                },
                Err(e) => Err(e),
            }
        },
        JsonToken::Failed(msg) => {
            match send_error(&parents, msg.clone(), tx) {
                Ok(()) => {
                    proof {
                        lemma_extended_step(log0, log0, tx.delivered());
                        lemma_appended_one(log0, tx.delivered(), log0.len() as int);
                    }
                    Ok(Flow::Halted)
                },
                Err(e) => Err(e),
            }
        },
        JsonToken::EndArray | JsonToken::EndObject | JsonToken::ObjectKey(_) => {
            let text = "unexpected token".to_owned();
            match send_error(&parents, text, tx) {
                Ok(()) => {
                    proof {
                        lemma_extended_step(log0, log0, tx.delivered());
                        lemma_appended_one(log0, tx.delivered(), log0.len() as int);
                    }
                    match policy {
                        ErrorPolicy::Halt => Ok(Flow::Halted),
                        ErrorPolicy::Continue => Ok(Flow::Done),
                    }
                },
                Err(e) => Err(e),
            }
        },
    }
}

/// Walks the elements of an array whose `StartArray` token was just
/// consumed. Each element's path is the array's path extended by the
/// element's index; the array itself contributes no step. On success the
/// emitted events realize exactly the reference walk of the consumed
/// tokens.
#[verifier::loop_isolation(false)]
#[verifier::rlimit(100)]
#[verifier::spinoff_prover]
pub fn traverse_array<V, X: Sender<V>, S: JsonEvents, H: Handler<V>>(
    h: &H,
    src: &mut S,
    parents: JsonPath,
    depth: u64,
    tx: &mut X,
    policy: ErrorPolicy,
    max_depth: u64,
) -> (r: Result<Flow, SendError>)
    ensures
        old(tx).inv() ==> final(tx).inv(),
        old(tx).infallible() ==> r is Ok && final(tx).infallible(),
        extended_no_finished(old(tx).delivered(), final(tx).delivered()),
        final(src).remaining().len() <= old(src).remaining().len(),
        ({
            let (ems, flow, rest) = walk_array(
                old(src).remaining(),
                path_steps(parents),
                depth,
                policy,
                max_depth,
            );
            r matches Ok(f) ==> f == flow && final(src).remaining() == rest && events_match(
                *h,
                ems,
                final(tx).delivered().skip(old(tx).delivered().len() as int),
            )
        }),
    decreases src.remaining().len(), 1int,
{
    let ghost n0 = src.remaining().len();
    let ghost toks0 = src.remaining();
    let ghost p0 = path_steps(parents);
    let ghost log0 = tx.delivered();
    proof {
        lemma_extended_refl(log0);
        assert(log0.skip(log0.len() as int) =~= Seq::<Event<V>>::empty());
    }
    if depth > max_depth {
        let text = "nesting deeper than the configured limit".to_owned();
        match send_error(&parents, text, tx) {
            Ok(()) => {
                proof {
                    reveal(walk_array);
                    lemma_extended_step(log0, log0, tx.delivered());
                    lemma_appended_one(log0, tx.delivered(), log0.len() as int);
                }
                return Ok(Flow::Halted);
            },
            Err(e) => {
                return Err(e);
            },
        }
    }
    let d2: u64 = if depth < u64::MAX {
        depth + 1
    } else {
        depth
    };
    proof {
        reveal(walk_elems);
        assert(one_based(depth) == d2);
        assert(walk_array(toks0, p0, depth, policy, max_depth) == walk_elems(
            toks0,
            p0,
            d2,
            policy,
            max_depth,
            0,
        ));
    }
    let mut index: u64 = 0;
    let ghost mut ems_done: Seq<Emission> = Seq::<Emission>::empty();
    loop
        invariant
            src.remaining().len() <= n0,
            old(tx).inv() ==> tx.inv(),
            old(tx).infallible() ==> tx.infallible(),
            extended_no_finished(log0, tx.delivered()),
            events_match(*h, ems_done, tx.delivered().skip(log0.len() as int)),
            ({
                let (emsc, fc, rc) = walk_elems(
                    src.remaining(),
                    p0,
                    d2,
                    policy,
                    max_depth,
                    index,
                );
                walk_elems(toks0, p0, d2, policy, max_depth, 0) == (ems_done + emsc, fc, rc)
            }),
        decreases src.remaining().len(),
    {
        let ghost cur = src.remaining();
        let ghost iter_log = tx.delivered();
        let ghost loop_p = p0.push(Step::Index(index));
        let loop_parents = parents.append(Step::Index(index));
        let ev = src.next_event();
        match &ev {
            JsonToken::String(_) | JsonToken::Number(_) | JsonToken::Boolean(_)
            | JsonToken::Null => {
                match h.maybe_send_value(&loop_parents, &ev, tx) {
                    Ok(()) => {
                        proof {
                            reveal(walk_elems);
                            reveal(walk_members);
                            lemma_extended_step(log0, iter_log, tx.delivered());
                            lemma_appended_one(iter_log, tx.delivered(), log0.len() as int);
                            lemma_events_match_push(
                                *h,
                                ems_done,
                                iter_log.skip(log0.len() as int),
                                Emission::Leaf(loop_p, ev),
                                tx.delivered().last(),
                            );
                            ems_done = ems_done.push(Emission::Leaf(loop_p, ev));
                            let (emsn, fn_, rn) = walk_elems(
                                src.remaining(),
                                p0,
                                d2,
                                policy,
                                max_depth,
                                one_based(index),
                            );
                            assert(walk_elems(cur, p0, d2, policy, max_depth, index) == (seq![
                                Emission::Leaf(loop_p, ev),
                            ] + emsn, fn_, rn));
                            assert(ems_done + emsn =~= ems_done.drop_last() + (seq![
                                Emission::Leaf(loop_p, ev),
                            ] + emsn));
                        }
                    },
                    Err(e) => {
                        return Err(e);
                    },
                }
            },
            JsonToken::StartArray => {
                match traverse_array(h, src, loop_parents, d2, tx, policy, max_depth) {
                    Ok(Flow::Done) => {
                        proof {
                            reveal(walk_elems);
                            reveal(walk_members);
                            lemma_extended_trans(log0, iter_log, tx.delivered());
                            let (e1, f1, r1) = walk_array(
                                cur.drop_first(),
                                loop_p,
                                d2,
                                policy,
                                max_depth,
                            );
                            lemma_walk_rest_len(
                                cur.drop_first(),
                                loop_p,
                                d2,
                                policy,
                                max_depth,
                                0,
                                1,
                            );
                            assert(clamp_rest(r1, cur.drop_first()) == r1);
                            lemma_skip_split(iter_log, tx.delivered(), log0.len() as int);
                            lemma_events_match_app(
                                *h,
                                ems_done,
                                iter_log.skip(log0.len() as int),
                                e1,
                                tx.delivered().skip(iter_log.len() as int),
                            );
                            ems_done = ems_done + e1;
                            let (emsn, fn_, rn) = walk_elems(
                                src.remaining(),
                                p0,
                                d2,
                                policy,
                                max_depth,
                                one_based(index),
                            );
                            assert(walk_elems(cur, p0, d2, policy, max_depth, index) == (e1 + emsn,
                            fn_, rn));
                            assert((ems_done + emsn) =~= (ems_done.subrange(
                                0,
                                ems_done.len() - e1.len(),
                            ) + (e1 + emsn)));
                        }
                    },
                    Ok(Flow::Halted) => {
                        proof {
                            reveal(walk_elems);
                            reveal(walk_members);
                            lemma_extended_trans(log0, iter_log, tx.delivered());
                            let (e1, f1, r1) = walk_array(
                                cur.drop_first(),
                                loop_p,
                                d2,
                                policy,
                                max_depth,
                            );
                            assert(walk_elems(cur, p0, d2, policy, max_depth, index) == (
                                e1,
                                Flow::Halted,
                                r1,
                            ));
                            lemma_skip_split(iter_log, tx.delivered(), log0.len() as int);
                            lemma_events_match_app(
                                *h,
                                ems_done,
                                iter_log.skip(log0.len() as int),
                                e1,
                                tx.delivered().skip(iter_log.len() as int),
                            );
                        }
                        return Ok(Flow::Halted);
                    },
                    Err(e) => {
                        proof {
                            lemma_extended_refl(tx.delivered());
                            lemma_extended_trans(log0, iter_log, tx.delivered());
                        }
                        return Err(e);
                    },
                }
            },
            JsonToken::StartObject => {
                match traverse_object(h, src, loop_parents, d2, tx, policy, max_depth) {
                    Ok(Flow::Done) => {
                        proof {
                            reveal(walk_elems);
                            reveal(walk_members);
                            lemma_extended_trans(log0, iter_log, tx.delivered());
                            let (e1, f1, r1) = walk_object(
                                cur.drop_first(),
                                loop_p,
                                d2,
                                policy,
                                max_depth,
                            );
                            lemma_walk_rest_len(
                                cur.drop_first(),
                                loop_p,
                                d2,
                                policy,
                                max_depth,
                                0,
                                3,
                            );
                            assert(clamp_rest(r1, cur.drop_first()) == r1);
                            lemma_skip_split(iter_log, tx.delivered(), log0.len() as int);
                            lemma_events_match_app(
                                *h,
                                ems_done,
                                iter_log.skip(log0.len() as int),
                                e1,
                                tx.delivered().skip(iter_log.len() as int),
                            );
                            ems_done = ems_done + e1;
                            let (emsn, fn_, rn) = walk_elems(
                                src.remaining(),
                                p0,
                                d2,
                                policy,
                                max_depth,
                                one_based(index),
                            );
                            assert(walk_elems(cur, p0, d2, policy, max_depth, index) == (e1 + emsn,
                            fn_, rn));
                            assert((ems_done + emsn) =~= (ems_done.subrange(
                                0,
                                ems_done.len() - e1.len(),
                            ) + (e1 + emsn)));
                        }
                    },
                    Ok(Flow::Halted) => {
                        proof {
                            reveal(walk_elems);
                            reveal(walk_members);
                            lemma_extended_trans(log0, iter_log, tx.delivered());
                            let (e1, f1, r1) = walk_object(
                                cur.drop_first(),
                                loop_p,
                                d2,
                                policy,
                                max_depth,
                            );
                            assert(walk_elems(cur, p0, d2, policy, max_depth, index) == (
                                e1,
                                Flow::Halted,
                                r1,
                            ));
                            lemma_skip_split(iter_log, tx.delivered(), log0.len() as int);
                            lemma_events_match_app(
                                *h,
                                ems_done,
                                iter_log.skip(log0.len() as int),
                                e1,
                                tx.delivered().skip(iter_log.len() as int),
                            );
                        }
                        return Ok(Flow::Halted);
                    },
                    Err(e) => {
                        proof {
                            lemma_extended_refl(tx.delivered());
                            lemma_extended_trans(log0, iter_log, tx.delivered());
                        }
                        return Err(e);
                    },
                }
            },
            JsonToken::EndArray => {
                proof {
                    reveal(walk_elems);
                }
                return Ok(Flow::Done);
            },
            JsonToken::Eof => {
                proof {
                    reveal(walk_elems);
                }
                return Ok(Flow::Halted);
            },
            JsonToken::Error { line, col, message } => {
                let text = render_parse_error(*line, *col, message);
                match send_error(&loop_parents, text, tx) {
                    Ok(()) => {
                        proof {
                            reveal(walk_elems);
                            reveal(walk_members);
                            lemma_extended_step(log0, iter_log, tx.delivered());
                            lemma_appended_one(iter_log, tx.delivered(), log0.len() as int);
                            lemma_events_match_push(
                                *h,
                                ems_done,
                                iter_log.skip(log0.len() as int),
                                Emission::Problem(
                                    loop_p,
                                    parse_error_text(*line, *col, message@),
                                ),
                                tx.delivered().last(),
                            );
                            ems_done = ems_done.push(
                                Emission::Problem(loop_p, parse_error_text(*line, *col, message@)),
                            );
                        }
                        if matches!(policy, ErrorPolicy::Halt) {
                            return Ok(Flow::Halted);
                        }
                        proof {
                            reveal(walk_elems);
                            let (emsn, fn_, rn) = walk_elems(
                                src.remaining(),
                                p0,
                                d2,
                                policy,
                                max_depth,
                                one_based(index),
                            );
                            assert(walk_elems(cur, p0, d2, policy, max_depth, index) == (seq![
                                ems_done.last(),
                            ] + emsn, fn_, rn));
                            assert(ems_done + emsn =~= ems_done.drop_last() + (seq![
                                ems_done.last(),
                            ] + emsn));
                        }
                    },
                    Err(e) => {
                        return Err(e);
                    },
                }
            },
            JsonToken::Failed(msg) => {
                match send_error(&parents, msg.clone(), tx) {
                    Ok(()) => {
                        proof {
                            reveal(walk_elems);
                            reveal(walk_members);
                            lemma_extended_step(log0, iter_log, tx.delivered());
                            lemma_appended_one(iter_log, tx.delivered(), log0.len() as int);
                            lemma_events_match_push(
                                *h,
                                ems_done,
                                iter_log.skip(log0.len() as int),
                                Emission::Problem(p0, msg@),
                                tx.delivered().last(),
                            );
                        }
                        return Ok(Flow::Halted);
                    },
                    Err(e) => {
                        return Err(e);
                    },
                }
            },
            JsonToken::EndObject | JsonToken::ObjectKey(_) => {
                let text = "unexpected token".to_owned();
                match send_error(&loop_parents, text, tx) {
                    Ok(()) => {
                        proof {
                            reveal(walk_elems);
                            reveal(walk_members);
                            lemma_extended_step(log0, iter_log, tx.delivered());
                            lemma_appended_one(iter_log, tx.delivered(), log0.len() as int);
                            lemma_events_match_push(
                                *h,
                                ems_done,
                                iter_log.skip(log0.len() as int),
                                Emission::Problem(loop_p, unexpected_text()),
                                tx.delivered().last(),
                            );
                            ems_done = ems_done.push(Emission::Problem(loop_p, unexpected_text()));
                        }
                        if matches!(policy, ErrorPolicy::Halt) {
                            return Ok(Flow::Halted);
                        }
                        proof {
                            reveal(walk_elems);
                            let (emsn, fn_, rn) = walk_elems(
                                src.remaining(),
                                p0,
                                d2,
                                policy,
                                max_depth,
                                one_based(index),
                            );
                            assert(walk_elems(cur, p0, d2, policy, max_depth, index) == (seq![
                                ems_done.last(),
                            ] + emsn, fn_, rn));
                            assert(ems_done + emsn =~= ems_done.drop_last() + (seq![
                                ems_done.last(),
                            ] + emsn));
                        }
                    },
                    Err(e) => {
                        return Err(e);
                    },
                }
            },
        }
        index = if index < u64::MAX {
            index + 1
        } else {
            index
        };
    }
}

/// Walks the members of an object whose `StartObject` token was just
/// consumed. Each member's value is walked at the object's path extended
/// by the member's key. On success the emitted events realize exactly the
/// reference walk of the consumed tokens.
#[verifier::loop_isolation(false)]
#[verifier::rlimit(100)]
#[verifier::spinoff_prover]
pub fn traverse_object<V, X: Sender<V>, S: JsonEvents, H: Handler<V>>(
    h: &H,
    src: &mut S,
    parents: JsonPath,
    depth: u64,
    tx: &mut X,
    policy: ErrorPolicy,
    max_depth: u64,
) -> (r: Result<Flow, SendError>)
    ensures
        old(tx).inv() ==> final(tx).inv(),
        old(tx).infallible() ==> r is Ok && final(tx).infallible(),
        extended_no_finished(old(tx).delivered(), final(tx).delivered()),
        final(src).remaining().len() <= old(src).remaining().len(),
        ({
            let (ems, flow, rest) = walk_object(
                old(src).remaining(),
                path_steps(parents),
                depth,
                policy,
                max_depth,
            );
            r matches Ok(f) ==> f == flow && final(src).remaining() == rest && events_match(
                *h,
                ems,
                final(tx).delivered().skip(old(tx).delivered().len() as int),
            )
        }),
    decreases src.remaining().len(), 1int,
{
    let ghost n0 = src.remaining().len();
    let ghost toks0 = src.remaining();
    let ghost p0 = path_steps(parents);
    let ghost log0 = tx.delivered();
    proof {
        lemma_extended_refl(log0);
        assert(log0.skip(log0.len() as int) =~= Seq::<Event<V>>::empty());
    }
    if depth > max_depth {
        let text = "nesting deeper than the configured limit".to_owned();
        match send_error(&parents, text, tx) {
            Ok(()) => {
                proof {
                    reveal(walk_object);
                    lemma_extended_step(log0, log0, tx.delivered());
                    lemma_appended_one(log0, tx.delivered(), log0.len() as int);
                }
                return Ok(Flow::Halted);
            },
            Err(e) => {
                return Err(e);
            },
        }
    }
    let d2: u64 = if depth < u64::MAX {
        depth + 1
    } else {
        depth
    };
    proof {
        reveal(walk_members);
        assert(one_based(depth) == d2);
        assert(walk_object(toks0, p0, depth, policy, max_depth) == walk_members(
            toks0,
            p0,
            d2,
            policy,
            max_depth,
        ));
    }
    let ghost mut ems_done: Seq<Emission> = Seq::<Emission>::empty();
    loop
        invariant
            src.remaining().len() <= n0,
            old(tx).inv() ==> tx.inv(),
            old(tx).infallible() ==> tx.infallible(),
            extended_no_finished(log0, tx.delivered()),
            events_match(*h, ems_done, tx.delivered().skip(log0.len() as int)),
            ({
                let (emsc, fc, rc) = walk_members(src.remaining(), p0, d2, policy, max_depth);
                walk_members(toks0, p0, d2, policy, max_depth) == (ems_done + emsc, fc, rc)
            }),
        decreases src.remaining().len(),
    {
        let ghost cur = src.remaining();
        let ghost iter_log = tx.delivered();
        let ev = src.next_event();
        match &ev {
            JsonToken::String(_) | JsonToken::Number(_) | JsonToken::Boolean(_)
            | JsonToken::Null => {
                match h.maybe_send_value(&parents, &ev, tx) {
                    Ok(()) => {
                        proof {
                            reveal(walk_elems);
                            reveal(walk_members);
                            lemma_extended_step(log0, iter_log, tx.delivered());
                            lemma_appended_one(iter_log, tx.delivered(), log0.len() as int);
                            lemma_events_match_push(
                                *h,
                                ems_done,
                                iter_log.skip(log0.len() as int),
                                Emission::Leaf(p0, ev),
                                tx.delivered().last(),
                            );
                            ems_done = ems_done.push(Emission::Leaf(p0, ev));
                            let (emsn, fn_, rn) = walk_members(
                                src.remaining(),
                                p0,
                                d2,
                                policy,
                                max_depth,
                            );
                            assert(walk_members(cur, p0, d2, policy, max_depth) == (seq![
                                Emission::Leaf(p0, ev),
                            ] + emsn, fn_, rn));
                            assert(ems_done + emsn =~= ems_done.drop_last() + (seq![
                                Emission::Leaf(p0, ev),
                            ] + emsn));
                        }
                    },
                    Err(e) => {
                        return Err(e);
                    },
                }
            },
            JsonToken::ObjectKey(key) => {
                let ghost member_p = p0.push(Step::Key(*key));
                let member = parents.append(Step::Key(key.clone()));
                match traverse_value(h, src, member, d2, tx, policy, max_depth) {
                    Ok(Flow::Done) => {
                        proof {
                            reveal(walk_elems);
                            reveal(walk_members);
                            lemma_extended_trans(log0, iter_log, tx.delivered());
                            let (e1, f1, r1) = walk_value(
                                cur.drop_first(),
                                member_p,
                                d2,
                                policy,
                                max_depth,
                            );
                            lemma_walk_rest_len(
                                cur.drop_first(),
                                member_p,
                                d2,
                                policy,
                                max_depth,
                                0,
                                0,
                            );
                            assert(clamp_rest(r1, cur.drop_first()) == r1);
                            lemma_skip_split(iter_log, tx.delivered(), log0.len() as int);
                            lemma_events_match_app(
                                *h,
                                ems_done,
                                iter_log.skip(log0.len() as int),
                                e1,
                                tx.delivered().skip(iter_log.len() as int),
                            );
                            ems_done = ems_done + e1;
                            let (emsn, fn_, rn) = walk_members(
                                src.remaining(),
                                p0,
                                d2,
                                policy,
                                max_depth,
                            );
                            assert(walk_members(cur, p0, d2, policy, max_depth) == (e1 + emsn, fn_,
                            rn));
                            assert((ems_done + emsn) =~= (ems_done.subrange(
                                0,
                                ems_done.len() - e1.len(),
                            ) + (e1 + emsn)));
                        }
                    },
                    Ok(Flow::Halted) => {
                        proof {
                            reveal(walk_elems);
                            reveal(walk_members);
                            lemma_extended_trans(log0, iter_log, tx.delivered());
                            let (e1, f1, r1) = walk_value(
                                cur.drop_first(),
                                member_p,
                                d2,
                                policy,
                                max_depth,
                            );
                            assert(walk_members(cur, p0, d2, policy, max_depth) == (
                                e1,
                                Flow::Halted,
                                r1,
                            ));
                            lemma_skip_split(iter_log, tx.delivered(), log0.len() as int);
                            lemma_events_match_app(
                                *h,
                                ems_done,
                                iter_log.skip(log0.len() as int),
                                e1,
                                tx.delivered().skip(iter_log.len() as int),
                            );
                        }
                        return Ok(Flow::Halted);
                    },
                    Err(e) => {
                        proof {
                            lemma_extended_refl(tx.delivered());
                            lemma_extended_trans(log0, iter_log, tx.delivered());
                        }
                        return Err(e);
                    },
                }
            },
            JsonToken::StartArray => {
                match traverse_array(h, src, parents.duplicate(), d2, tx, policy, max_depth) {
                    Ok(Flow::Done) => {
                        proof {
                            reveal(walk_elems);
                            reveal(walk_members);
                            lemma_extended_trans(log0, iter_log, tx.delivered());
                            let (e1, f1, r1) = walk_array(
                                cur.drop_first(),
                                p0,
                                d2,
                                policy,
                                max_depth,
                            );
                            lemma_walk_rest_len(cur.drop_first(), p0, d2, policy, max_depth, 0, 1);
                            assert(clamp_rest(r1, cur.drop_first()) == r1);
                            lemma_skip_split(iter_log, tx.delivered(), log0.len() as int);
                            lemma_events_match_app(
                                *h,
                                ems_done,
                                iter_log.skip(log0.len() as int),
                                e1,
                                tx.delivered().skip(iter_log.len() as int),
                            );
                            ems_done = ems_done + e1;
                            let (emsn, fn_, rn) = walk_members(
                                src.remaining(),
                                p0,
                                d2,
                                policy,
                                max_depth,
                            );
                            assert(walk_members(cur, p0, d2, policy, max_depth) == (e1 + emsn, fn_,
                            rn));
                            assert((ems_done + emsn) =~= (ems_done.subrange(
                                0,
                                ems_done.len() - e1.len(),
                            ) + (e1 + emsn)));
                        }
                    },
                    Ok(Flow::Halted) => {
                        proof {
                            reveal(walk_elems);
                            reveal(walk_members);
                            lemma_extended_trans(log0, iter_log, tx.delivered());
                            let (e1, f1, r1) = walk_array(
                                cur.drop_first(),
                                p0,
                                d2,
                                policy,
                                max_depth,
                            );
                            assert(walk_members(cur, p0, d2, policy, max_depth) == (
                                e1,
                                Flow::Halted,
                                r1,
                            ));
                            lemma_skip_split(iter_log, tx.delivered(), log0.len() as int);
                            lemma_events_match_app(
                                *h,
                                ems_done,
                                iter_log.skip(log0.len() as int),
                                e1,
                                tx.delivered().skip(iter_log.len() as int),
                            );
                        }
                        return Ok(Flow::Halted);
                    },
                    Err(e) => {
                        proof {
                            lemma_extended_refl(tx.delivered());
                            lemma_extended_trans(log0, iter_log, tx.delivered());
                        }
                        return Err(e);
                    },
                }
            },
            JsonToken::StartObject => {
                match traverse_object(h, src, parents.duplicate(), d2, tx, policy, max_depth) {
                    Ok(Flow::Done) => {
                        proof {
                            reveal(walk_elems);
                            reveal(walk_members);
                            lemma_extended_trans(log0, iter_log, tx.delivered());
                            let (e1, f1, r1) = walk_object(
                                cur.drop_first(),
                                p0,
                                d2,
                                policy,
                                max_depth,
                            );
                            lemma_walk_rest_len(cur.drop_first(), p0, d2, policy, max_depth, 0, 3);
                            assert(clamp_rest(r1, cur.drop_first()) == r1);
                            lemma_skip_split(iter_log, tx.delivered(), log0.len() as int);
                            lemma_events_match_app(
                                *h,
                                ems_done,
                                iter_log.skip(log0.len() as int),
                                e1,
                                tx.delivered().skip(iter_log.len() as int),
                            );
                            ems_done = ems_done + e1;
                            let (emsn, fn_, rn) = walk_members(
                                src.remaining(),
                                p0,
                                d2,
                                policy,
                                max_depth,
                            );
                            assert(walk_members(cur, p0, d2, policy, max_depth) == (e1 + emsn, fn_,
                            rn));
                            assert((ems_done + emsn) =~= (ems_done.subrange(
                                0,
                                ems_done.len() - e1.len(),
                            ) + (e1 + emsn)));
                        }
                    },
                    Ok(Flow::Halted) => {
                        proof {
                            reveal(walk_elems);
                            reveal(walk_members);
                            lemma_extended_trans(log0, iter_log, tx.delivered());
                            let (e1, f1, r1) = walk_object(
                                cur.drop_first(),
                                p0,
                                d2,
                                policy,
                                max_depth,
                            );
                            assert(walk_members(cur, p0, d2, policy, max_depth) == (
                                e1,
                                Flow::Halted,
                                r1,
                            ));
                            lemma_skip_split(iter_log, tx.delivered(), log0.len() as int);
                            lemma_events_match_app(
                                *h,
                                ems_done,
                                iter_log.skip(log0.len() as int),
                                e1,
                                tx.delivered().skip(iter_log.len() as int),
                            );
                        }
                        return Ok(Flow::Halted);
                    },
                    Err(e) => {
                        proof {
                            lemma_extended_refl(tx.delivered());
                            lemma_extended_trans(log0, iter_log, tx.delivered());
                        }
                        return Err(e);
                    },
                }
            },
            JsonToken::EndObject => {
                proof {
                    reveal(walk_members);
                }
                return Ok(Flow::Done);
            },
            JsonToken::Eof => {
                proof {
                    reveal(walk_members);
                }
                return Ok(Flow::Halted);
            },
            JsonToken::Error { line, col, message } => {
                let text = render_parse_error(*line, *col, message);
                match send_error(&parents, text, tx) {
                    Ok(()) => {
                        proof {
                            reveal(walk_elems);
                            reveal(walk_members);
                            lemma_extended_step(log0, iter_log, tx.delivered());
                            lemma_appended_one(iter_log, tx.delivered(), log0.len() as int);
                            lemma_events_match_push(
                                *h,
                                ems_done,
                                iter_log.skip(log0.len() as int),
                                Emission::Problem(p0, parse_error_text(*line, *col, message@)),
                                tx.delivered().last(),
                            );
                            ems_done = ems_done.push(
                                Emission::Problem(p0, parse_error_text(*line, *col, message@)),
                            );
                        }
                        if matches!(policy, ErrorPolicy::Halt) {
                            return Ok(Flow::Halted);
                        }
                        proof {
                            reveal(walk_members);
                            let (emsn, fn_, rn) = walk_members(
                                src.remaining(),
                                p0,
                                d2,
                                policy,
                                max_depth,
                            );
                            assert(walk_members(cur, p0, d2, policy, max_depth) == (seq![
                                ems_done.last(),
                            ] + emsn, fn_, rn));
                            assert(ems_done + emsn =~= ems_done.drop_last() + (seq![
                                ems_done.last(),
                            ] + emsn));
                        }
                    },
                    Err(e) => {
                        return Err(e);
                    },
                }
            },
            JsonToken::Failed(msg) => {
                match send_error(&parents, msg.clone(), tx) {
                    Ok(()) => {
                        proof {
                            reveal(walk_elems);
                            reveal(walk_members);
                            lemma_extended_step(log0, iter_log, tx.delivered());
                            lemma_appended_one(iter_log, tx.delivered(), log0.len() as int);
                            lemma_events_match_push(
                                *h,
                                ems_done,
                                iter_log.skip(log0.len() as int),
                                Emission::Problem(p0, msg@),
                                tx.delivered().last(),
                            );
                        }
                        return Ok(Flow::Halted);
                    },
                    Err(e) => {
                        return Err(e);
                    },
                }
            },
            JsonToken::EndArray => {
                let text = "unexpected token".to_owned();
                match send_error(&parents, text, tx) {
                    Ok(()) => {
                        proof {
                            reveal(walk_elems);
                            reveal(walk_members);
                            lemma_extended_step(log0, iter_log, tx.delivered());
                            lemma_appended_one(iter_log, tx.delivered(), log0.len() as int);
                            lemma_events_match_push(
                                *h,
                                ems_done,
                                iter_log.skip(log0.len() as int),
                                Emission::Problem(p0, unexpected_text()),
                                tx.delivered().last(),
                            );
                            ems_done = ems_done.push(Emission::Problem(p0, unexpected_text()));
                        }
                        if matches!(policy, ErrorPolicy::Halt) {
                            return Ok(Flow::Halted);
                        }
                        proof {
                            reveal(walk_members);
                            let (emsn, fn_, rn) = walk_members(
                                src.remaining(),
                                p0,
                                d2,
                                policy,
                                max_depth,
                            );
                            assert(walk_members(cur, p0, d2, policy, max_depth) == (seq![
                                ems_done.last(),
                            ] + emsn, fn_, rn));
                            assert(ems_done + emsn =~= ems_done.drop_last() + (seq![
                                ems_done.last(),
                            ] + emsn));
                        }
                    },
                    Err(e) => {
                        return Err(e);
                    },
                }
            },
        }
    }
}

/// Runs a whole traversal: walks the single top-level value and then emits
/// `Finished`.
///
/// Whenever the sender keeps accepting events — always, for an infallible
/// sender — the delivered events realize exactly the reference walk of the
/// consumed tokens, followed by one `Finished` event, the last delivered;
/// a sender failure is terminal and produces no `Finished`. Nesting deeper
/// than `max_depth` is reported as an `Error` event and stops the walk
/// rather than exhausting the call stack.
pub fn traverse<V, X: Sender<V>, S: JsonEvents, H: Handler<V>>(
    h: &H,
    src: &mut S,
    tx: &mut X,
    policy: ErrorPolicy,
    max_depth: u64,
) -> (r: Result<(), SendError>)
    ensures
        old(tx).inv() ==> final(tx).inv(),
        old(tx).infallible() ==> r is Ok && final(tx).infallible(),
        r is Ok ==> {
            let pre = old(tx).delivered();
            let post = final(tx).delivered();
            let (ems, flow, rest) = walk_value(
                old(src).remaining(),
                Seq::<Step>::empty(),
                0,
                policy,
                max_depth,
            );
            &&& post.len() == pre.len() + ems.len() + 1
            &&& post.subrange(0, pre.len() as int) == pre
            &&& post.last() is Finished
            &&& forall|i: int|
                pre.len() <= i < post.len() - 1 ==> !(#[trigger] post[i] is Finished)
            &&& final(src).remaining() == rest
            &&& events_match(*h, ems, post.subrange(pre.len() as int, post.len() - 1))
        },
        r is Err ==> extended_no_finished(old(tx).delivered(), final(tx).delivered()),
{
    let root = JsonPath::new();
    match traverse_value(h, src, root, 0, tx, policy, max_depth) {
        Ok(_flow) => {
            let ghost mid = tx.delivered();
            match tx.send(Event::Finished) {
                Ok(()) => {
                    proof {
                        let pre = old(tx).delivered();
                        let post = tx.delivered();
                        assert forall|i: int| 0 <= i < pre.len() implies post[i] == pre[i] by {
                            assert(mid.subrange(0, pre.len() as int)[i] == pre[i]);
                        }
                        assert(post.subrange(0, pre.len() as int) =~= pre);
                        assert forall|i: int|
                            pre.len() <= i < post.len() - 1 implies !(#[trigger] post[i]
                            is Finished) by {
                            assert(post[i] == mid[i]);
                        }
                        assert(post.subrange(pre.len() as int, post.len() - 1) =~= mid.skip(
                            pre.len() as int,
                        ));
                    }
                    Ok(())
                },
                Err(e) => Err(e),
            }
        },
        Err(e) => Err(e),
    }
}

} // verus!
