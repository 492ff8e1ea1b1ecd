//! The schema aggregator: classifies each delivered leaf value into a
//! type-lattice element and merges it into a per-canonical-path summary.
//!
//! A leaf's `count` only grows and its `aggregate` only widens, and the
//! merge is commutative and associative over the multiset of values seen
//! at one canonical path: the final summary does not depend on the order
//! in which same-path values arrive.

use vstd::prelude::*;
use crate::handler::ErrorPolicy;
use crate::handler::Handler;
use crate::handler::traverse;
use crate::jsonpath::JsonPath;
use crate::numbers::NumClass;
use crate::numbers::classify;
use crate::numbers::classify_number;
use crate::numbers::parse_float;
use crate::parser::JsonEvents;
use crate::parser::JsonToken;
use crate::sender::Event;
use crate::text::u64_to_string;
use crate::text::spec_digits;
use crate::sender::SendError;
use crate::sender::Sender;
use crate::sendpath::SendPath;
use crate::numbers::FloatVal;
use crate::numbers::FloatView;
use crate::numbers::float_min;
use crate::numbers::float_max;
use crate::numbers::float_min_val;
use crate::numbers::float_max_val;
use crate::numbers::str_le;
use crate::numbers::text_le;
use crate::numbers::lemma_float_minmax_comm;
use crate::numbers::lemma_float_minmax_assoc;
use crate::numbers::lemma_str_le_total;
use crate::numbers::lemma_str_le_trans;

verus! {

/// The kinds of JSON number, with their running ranges.
#[derive(Debug, Clone, PartialEq, Eq)]
pub enum NumberType {
    /// The largest value seen.
    Unsigned(u64),
    /// The smallest and largest values seen.
    Signed(i64, i64),
    /// The smallest and largest values seen, in decimal form.
    Float(FloatVal, FloatVal),
}

/// The mathematical value of a `NumberType`.
pub enum NumberTypeView {
    Unsigned(u64),
    Signed(i64, i64),
    Float(FloatView, FloatView),
}

impl View for NumberType {
    type V = NumberTypeView;

    open spec fn view(&self) -> NumberTypeView {
        match self {
            NumberType::Unsigned(n) => NumberTypeView::Unsigned(*n),
            NumberType::Signed(lo, hi) => NumberTypeView::Signed(*lo, *hi),
            NumberType::Float(lo, hi) => NumberTypeView::Float(lo@, hi@),
        }
    }
}

/// The types in a schema, each with its running statistics.
#[derive(Debug, Clone, PartialEq, Eq)]
pub enum SchemaType {
    /// The largest string length seen.
    String(u64),
    Number(NumberType),
    Boolean,
    Null,
    /// Something else; carries a raw sample.
    Unknown(String),
}

/// The mathematical value of a `SchemaType`.
pub enum SchemaTypeView {
    String(u64),
    Number(NumberTypeView),
    Boolean,
    Null,
    Unknown(Seq<char>),
}

impl View for SchemaType {
    type V = SchemaTypeView;

    open spec fn view(&self) -> SchemaTypeView {
        match self {
            SchemaType::String(n) => SchemaTypeView::String(*n),
            SchemaType::Number(n) => SchemaTypeView::Number(n@),
            SchemaType::Boolean => SchemaTypeView::Boolean,
            SchemaType::Null => SchemaTypeView::Null,
            SchemaType::Unknown(s) => SchemaTypeView::Unknown(s@),
        }
    }
}

impl SchemaType {
    /// An equal copy of this type.
    pub fn duplicate(&self) -> (r: SchemaType)
        ensures
            r@ == self@,
    {
        match self {
            SchemaType::String(n) => SchemaType::String(*n),
            SchemaType::Number(NumberType::Unsigned(n)) => SchemaType::Number(
                NumberType::Unsigned(*n),
            ),
            SchemaType::Number(NumberType::Signed(lo, hi)) => SchemaType::Number(
                NumberType::Signed(*lo, *hi),
            ),
            SchemaType::Number(NumberType::Float(lo, hi)) => SchemaType::Number(
                NumberType::Float(lo.duplicate(), hi.duplicate()),
            ),
            SchemaType::Boolean => SchemaType::Boolean,
            SchemaType::Null => SchemaType::Null,
            SchemaType::Unknown(s) => SchemaType::Unknown(s.clone()),
        }
    }
}

/// The outer type category of a value, ignoring magnitudes: the key that
/// decides whether two values merge into the same leaf.
#[derive(Debug, Clone, Copy, PartialEq, Eq, Structural)]
pub enum Shape {
    Text,
    Unsigned,
    Signed,
    Floating,
    Boolean,
    Null,
    Unknown,
}

/// The shape of a schema type.
pub open spec fn shape_of(t: SchemaTypeView) -> Shape {
    match t {
        SchemaTypeView::String(_) => Shape::Text,
        SchemaTypeView::Number(NumberTypeView::Unsigned(_)) => Shape::Unsigned,
        SchemaTypeView::Number(NumberTypeView::Signed(_, _)) => Shape::Signed,
        SchemaTypeView::Number(NumberTypeView::Float(_, _)) => Shape::Floating,
        SchemaTypeView::Boolean => Shape::Boolean,
        SchemaTypeView::Null => Shape::Null,
        SchemaTypeView::Unknown(_) => Shape::Unknown,
    }
}

/// The shape of a schema type, computed.
pub fn shape_of_exec(t: &SchemaType) -> (s: Shape)
    ensures
        s == shape_of(t@),
{
    match t {
        SchemaType::String(_) => Shape::Text,
        SchemaType::Number(NumberType::Unsigned(_)) => Shape::Unsigned,
        SchemaType::Number(NumberType::Signed(_, _)) => Shape::Signed,
        SchemaType::Number(NumberType::Float(_, _)) => Shape::Floating,
        SchemaType::Boolean => Shape::Boolean,
        SchemaType::Null => Shape::Null,
        SchemaType::Unknown(_) => Shape::Unknown,
    }
}

/// The canonical representative of a shape, used as a leaf's kind so that
/// a leaf does not depend on which same-shape value arrived first.
pub open spec fn shape_rep(s: Shape) -> SchemaTypeView {
    match s {
        Shape::Text => SchemaTypeView::String(0),
        Shape::Unsigned => SchemaTypeView::Number(NumberTypeView::Unsigned(0)),
        Shape::Signed => SchemaTypeView::Number(NumberTypeView::Signed(0, 0)),
        Shape::Floating => SchemaTypeView::Number(
            NumberTypeView::Float(zero_float(), zero_float()),
        ),
        Shape::Boolean => SchemaTypeView::Boolean,
        Shape::Null => SchemaTypeView::Null,
        Shape::Unknown => SchemaTypeView::Unknown(Seq::<char>::empty()),
    }
}

/// The canonical zero floating value.
pub open spec fn zero_float() -> FloatView {
    FloatView { nan: false, neg: false, zero: true, exp: 0, digits: Seq::<u8>::empty(), text: Seq::<
        char,
    >::empty() }
}

/// The canonical representative of a shape, computed.
pub fn shape_rep_exec(s: Shape) -> (r: SchemaType)
    ensures
        r@ == shape_rep(s),
{
    match s {
        Shape::Text => SchemaType::String(0),
        Shape::Unsigned => SchemaType::Number(NumberType::Unsigned(0)),
        Shape::Signed => SchemaType::Number(NumberType::Signed(0, 0)),
        Shape::Floating => SchemaType::Number(
            NumberType::Float(zero_float_exec(), zero_float_exec()),
        ),
        Shape::Boolean => SchemaType::Boolean,
        Shape::Null => SchemaType::Null,
        Shape::Unknown => SchemaType::Unknown(String::new()),
    }
}

/// The canonical zero floating value, computed.
fn zero_float_exec() -> (r: FloatVal)
    ensures
        r@ == zero_float(),
{
    FloatVal { nan: false, neg: false, zero: true, exp: 0, digits: Vec::new(), text: String::new() }
}

/// One observed shape at a canonical path: the shape's representative,
/// how many same-shape values arrived, and the widened statistics.
#[derive(Debug, Clone, PartialEq, Eq)]
pub struct Leaf {
    pub kind: SchemaType,
    pub count: u64,
    pub aggregate: SchemaType,
}

/// The mathematical value of a leaf.
#[verifier::ext_equal]
pub struct LeafView {
    pub kind: SchemaTypeView,
    pub count: u64,
    pub aggregate: SchemaTypeView,
}

impl View for Leaf {
    type V = LeafView;

    open spec fn view(&self) -> LeafView {
        LeafView { kind: self.kind@, count: self.count, aggregate: self.aggregate@ }
    }
}

impl DeepView for Leaf {
    type V = LeafView;

    open spec fn deep_view(&self) -> LeafView {
        self.view()
    }
}

impl Leaf {
    /// A leaf for the first value of its shape.
    pub fn new(kind: SchemaType) -> (r: Leaf)
        ensures
            r@ == new_leaf(kind@),
    {
        let rep = shape_rep_exec(shape_of_exec(&kind));
        Leaf { kind: rep, count: 1, aggregate: kind }
    }
}

/// The leaf recording one value of shape `shape_of(t)`.
pub open spec fn new_leaf(t: SchemaTypeView) -> LeafView {
    LeafView { kind: shape_rep(shape_of(t)), count: 1, aggregate: t }
}

/// A count that only grows, saturating at the largest value.
pub open spec fn bump(c: u64) -> u64 {
    if c < u64::MAX {
        (c + 1) as u64
    } else {
        c
    }
}

/// The widened aggregate after merging one same-shape value: the larger
/// maxima, the smaller minima, the longer string length; the raw sample of
/// an unknown value is kept in its least lexicographic form, and shapes
/// without statistics are unchanged.
pub open spec fn widen(agg: SchemaTypeView, t: SchemaTypeView) -> SchemaTypeView {
    match (agg, t) {
        (SchemaTypeView::String(a), SchemaTypeView::String(b)) => SchemaTypeView::String(
            if a >= b {
                a
            } else {
                b
            },
        ),
        (
            SchemaTypeView::Number(NumberTypeView::Unsigned(a)),
            SchemaTypeView::Number(NumberTypeView::Unsigned(b)),
        ) => SchemaTypeView::Number(
            NumberTypeView::Unsigned(
                if a >= b {
                    a
                } else {
                    b
                },
            ),
        ),
        (
            SchemaTypeView::Number(NumberTypeView::Signed(alo, ahi)),
            SchemaTypeView::Number(NumberTypeView::Signed(blo, bhi)),
        ) => SchemaTypeView::Number(
            NumberTypeView::Signed(
                if alo <= blo {
                    alo
                } else {
                    blo
                },
                if ahi >= bhi {
                    ahi
                } else {
                    bhi
                },
            ),
        ),
        (
            SchemaTypeView::Number(NumberTypeView::Float(alo, ahi)),
            SchemaTypeView::Number(NumberTypeView::Float(blo, bhi)),
        ) => SchemaTypeView::Number(
            NumberTypeView::Float(float_min(alo, blo), float_max(ahi, bhi)),
        ),
        (SchemaTypeView::Unknown(a), SchemaTypeView::Unknown(b)) => SchemaTypeView::Unknown(
            if str_le(a, b) {
                a
            } else {
                b
            },
        ),
        _ => agg,
    }
}

/// The leaf after merging one same-shape value.
pub open spec fn spec_merge(l: LeafView, t: SchemaTypeView) -> LeafView {
    LeafView { kind: l.kind, count: bump(l.count), aggregate: widen(l.aggregate, t) }
}

/// Merges one same-shape value into a leaf: the count grows, the
/// aggregate widens.
pub fn merge_into(leaf: &mut Leaf, t: &SchemaType)
    ensures
        final(leaf)@ == spec_merge(old(leaf)@, t@),
{
    if leaf.count < u64::MAX {
        leaf.count = leaf.count + 1;
    }
    let widened: Option<SchemaType> = match (&leaf.aggregate, t) {
        (SchemaType::String(a), SchemaType::String(b)) => Some(
            SchemaType::String(
                if *a >= *b {
                    *a
                } else {
                    *b
                },
            ),
        ),
        (
            SchemaType::Number(NumberType::Unsigned(a)),
            SchemaType::Number(NumberType::Unsigned(b)),
        ) => Some(
            SchemaType::Number(
                NumberType::Unsigned(
                    if *a >= *b {
                        *a
                    } else {
                        *b
                    },
                ),
            ),
        ),
        (
            SchemaType::Number(NumberType::Signed(alo, ahi)),
            SchemaType::Number(NumberType::Signed(blo, bhi)),
        ) => Some(
            SchemaType::Number(
                NumberType::Signed(
                    if *alo <= *blo {
                        *alo
                    } else {
                        *blo
                    },
                    if *ahi >= *bhi {
                        *ahi
                    } else {
                        *bhi
                    },
                ),
            ),
        ),
        (
            SchemaType::Number(NumberType::Float(alo, ahi)),
            SchemaType::Number(NumberType::Float(blo, bhi)),
        ) => Some(
            SchemaType::Number(
                NumberType::Float(float_min_val(alo, blo), float_max_val(ahi, bhi)),
            ),
        ),
        (SchemaType::Unknown(a), SchemaType::Unknown(b)) => Some(
            SchemaType::Unknown(
                if text_le(a.as_str(), b.as_str()) {
                    a.clone()
                } else {
                    b.clone()
                },
            ),
        ),
        _ => None,
    };
    match widened {
        Some(w) => {
            leaf.aggregate = w;
        },
        None => {},
    }
}

/// One step of a canonical schema path: a key name, or a wildcard that
/// stands for every array index.
#[derive(Debug, Clone, PartialEq, Eq)]
pub enum Step {
    Key(String),
    Index,
}

/// The mathematical value of a schema step.
pub enum StepView {
    Key(Seq<char>),
    Index,
}

impl View for Step {
    type V = StepView;

    open spec fn view(&self) -> StepView {
        match self {
            Step::Key(k) => StepView::Key(k@),
            Step::Index => StepView::Index,
        }
    }
}

impl DeepView for Step {
    type V = StepView;

    open spec fn deep_view(&self) -> StepView {
        self.view()
    }
}

impl Step {
    /// A key step.
    pub fn key(val: &str) -> (r: Step)
        ensures
            r@ == StepView::Key(val@),
    {
        Step::Key(val.to_owned())
    }
}

/// Whether two schema steps are the same.
pub fn step_eq(a: &Step, b: &Step) -> (r: bool)
    ensures
        r == (a@ == b@),
{
    match (a, b) {
        (Step::Key(x), Step::Key(y)) => <String as PartialEq>::eq(x, y),
        (Step::Index, Step::Index) => true,
        _ => false,
    }
}

/// A canonical path: a path with every array index replaced by the
/// wildcard, the aggregation key under which all elements of one array
/// share one schema bucket.
#[derive(Debug, Clone, PartialEq, Eq)]
pub struct SchemaPath(pub Vec<Step>);

impl View for SchemaPath {
    type V = Seq<StepView>;

    open spec fn view(&self) -> Seq<StepView> {
        self.0.deep_view()
    }
}

/// The canonical form of one step: a key kept, an index replaced by the
/// wildcard.
pub open spec fn canon_step(v: crate::jsonpath::StepView) -> StepView {
    match v {
        crate::jsonpath::StepView::Key(k) => StepView::Key(k),
        crate::jsonpath::StepView::Index(_) => StepView::Index,
    }
}

/// The canonical form of a path: keys kept, indices replaced by the
/// wildcard.
pub open spec fn canon_spec(s: Seq<crate::jsonpath::StepView>) -> Seq<StepView> {
    s.map_values(|v: crate::jsonpath::StepView| canon_step(v))
}

impl SchemaPath {
    /// The canonical form of a sent path.
    pub fn from_send_path(p: &SendPath) -> (r: SchemaPath)
        ensures
            r@ == canon_spec(p@),
    {
        let mut steps: Vec<Step> = Vec::new();
        let mut i: usize = 0;
        while i < p.0.len()
            invariant
                i <= p.0@.len(),
                steps@.len() == i,
                forall|j: int| 0 <= j < i ==> #[trigger] steps@[j]@ == canon_step(p.0@[j]@),
            decreases p.0@.len() - i,
        {
            match &p.0[i] {
                crate::jsonpath::Step::Key(k) => {
                    steps.push(Step::Key(k.clone()));
                },
                crate::jsonpath::Step::Index(_) => {
                    steps.push(Step::Index);
                },
            }
            i = i + 1;
        }
        let r = SchemaPath(steps);
        proof {
            assert forall|j: int| 0 <= j < r@.len() implies r@[j] == canon_spec(p@)[j] by {
                assert(r@[j] == r.0@[j]@);
                assert(p@[j] == p.0@[j]@);
            }
            assert(r@ =~= canon_spec(p@));
        }
        r
    }

    /// Whether two canonical paths are the same.
    pub fn same_as(&self, other: &SchemaPath) -> (r: bool)
        ensures
            r == (self@ == other@),
    {
        if self.0.len() != other.0.len() {
            proof {
                assert(self@.len() == self.0@.len());
                assert(other@.len() == other.0@.len());
            }
            return false;
        }
        let mut i: usize = 0;
        while i < self.0.len()
            invariant
                i <= self.0@.len(),
                self.0@.len() == other.0@.len(),
                forall|j: int| 0 <= j < i ==> self@[j] == other@[j],
            decreases self.0@.len() - i,
        {
            if !step_eq(&self.0[i], &other.0[i]) {
                proof {
                    assert(self@[i as int] != other@[i as int]);
                }
                return false;
            }
            i = i + 1;
        }
        proof {
            assert(self@ =~= other@);
        }
        true
    }
}

/// One schema row: a canonical path and the set of shapes seen at it,
/// one leaf per shape.
#[derive(Debug, Clone, PartialEq, Eq)]
pub struct SchemaRow {
    pub path: SchemaPath,
    pub leaves: Vec<Leaf>,
}

/// The shape-indexed summary a vector of leaves stands for.
pub open spec fn leaves_model(s: Seq<Leaf>) -> Map<Shape, LeafView>
    decreases s.len(),
{
    if s.len() == 0 {
        Map::<Shape, LeafView>::empty()
    } else {
        leaves_model(s.drop_last()).insert(shape_of(s.last().kind@), s.last()@)
    }
}

/// Each shape appears at most once in a leaf vector.
pub open spec fn leaves_wf(s: Seq<Leaf>) -> bool {
    forall|i: int, j: int|
        0 <= i < j < s.len() ==> shape_of(#[trigger] s[i].kind@) != shape_of(#[trigger] s[j].kind@)
}

/// The path-indexed summary a vector of rows stands for.
pub open spec fn rows_model(s: Seq<SchemaRow>) -> Map<Seq<StepView>, Map<Shape, LeafView>>
    decreases s.len(),
{
    if s.len() == 0 {
        Map::<Seq<StepView>, Map<Shape, LeafView>>::empty()
    } else {
        rows_model(s.drop_last()).insert(s.last().path@, leaves_model(s.last().leaves@))
    }
}

/// Each canonical path appears at most once, and each row is well formed.
pub open spec fn rows_wf(s: Seq<SchemaRow>) -> bool {
    &&& forall|i: int, j: int|
        0 <= i < j < s.len() ==> (#[trigger] s[i].path@) != (#[trigger] s[j].path@)
    &&& forall|i: int| 0 <= i < s.len() ==> leaves_wf((#[trigger] s[i]).leaves@)
}

/// A shape no leaf has is not in the model.
proof fn lemma_leaves_model_miss(s: Seq<Leaf>, sh: Shape)
    requires
        forall|i: int| 0 <= i < s.len() ==> shape_of(#[trigger] s[i].kind@) != sh,
    ensures
        !leaves_model(s).contains_key(sh),
    decreases s.len(),
{
    if s.len() > 0 {
        lemma_leaves_model_miss(s.drop_last(), sh);
    }
}

/// The model maps the shape of each leaf to that leaf.
proof fn lemma_leaves_model_hit(s: Seq<Leaf>, i: int)
    requires
        leaves_wf(s),
        0 <= i < s.len(),
    ensures
        leaves_model(s).contains_key(shape_of(s[i].kind@)),
        leaves_model(s)[shape_of(s[i].kind@)] == s[i]@,
    decreases s.len(),
{
    if i < s.len() - 1 {
        lemma_leaves_model_hit(s.drop_last(), i);
    }
}

/// Appending a leaf of a new shape inserts it into the model.
proof fn lemma_leaves_model_push(s: Seq<Leaf>, l: Leaf)
    ensures
        leaves_model(s.push(l)) == leaves_model(s).insert(shape_of(l.kind@), l@),
        (leaves_wf(s) && (forall|i: int|
            0 <= i < s.len() ==> shape_of(#[trigger] s[i].kind@) != shape_of(l.kind@)) ==> leaves_wf(
            s.push(l),
        )),
{
    assert(s.push(l).drop_last() =~= s);
}

/// Replacing a leaf with one of the same shape updates the model at that
/// shape.
proof fn lemma_leaves_model_update(s: Seq<Leaf>, i: int, nl: Leaf)
    requires
        leaves_wf(s),
        0 <= i < s.len(),
        shape_of(nl.kind@) == shape_of(s[i].kind@),
    ensures
        leaves_model(s.update(i, nl)) == leaves_model(s).insert(shape_of(nl.kind@), nl@),
        leaves_wf(s.update(i, nl)),
    decreases s.len(),
{
    let sh = shape_of(nl.kind@);
    if i == s.len() - 1 {
        assert(s.update(i, nl).drop_last() =~= s.drop_last());
        assert(leaves_model(s.update(i, nl)) =~= leaves_model(s).insert(sh, nl@));
    } else {
        lemma_leaves_model_update(s.drop_last(), i, nl);
        assert(s.update(i, nl).drop_last() =~= s.drop_last().update(i, nl));
        assert(s.update(i, nl).last() == s.last());
        assert(shape_of(s.last().kind@) != sh);
        assert(leaves_model(s.update(i, nl)) =~= leaves_model(s).insert(sh, nl@));
    }
}

/// A path no row has is not in the model.
proof fn lemma_rows_model_miss(s: Seq<SchemaRow>, p: Seq<StepView>)
    requires
        forall|i: int| 0 <= i < s.len() ==> (#[trigger] s[i].path@) != p,
    ensures
        !rows_model(s).contains_key(p),
    decreases s.len(),
{
    if s.len() > 0 {
        lemma_rows_model_miss(s.drop_last(), p);
    }
}

/// The model maps the path of each row to that row's summary.
proof fn lemma_rows_model_hit(s: Seq<SchemaRow>, i: int)
    requires
        rows_wf(s),
        0 <= i < s.len(),
    ensures
        rows_model(s).contains_key(s[i].path@),
        rows_model(s)[s[i].path@] == leaves_model(s[i].leaves@),
    decreases s.len(),
{
    if i < s.len() - 1 {
        lemma_rows_model_hit(s.drop_last(), i);
    }
}

/// Appending a row with a new path inserts it into the model.
proof fn lemma_rows_model_push(s: Seq<SchemaRow>, r: SchemaRow)
    ensures
        rows_model(s.push(r)) == rows_model(s).insert(r.path@, leaves_model(r.leaves@)),
        (rows_wf(s) && leaves_wf(r.leaves@) && (forall|i: int|
            0 <= i < s.len() ==> (#[trigger] s[i].path@) != r.path@) ==> rows_wf(s.push(r))),
{
    assert(s.push(r).drop_last() =~= s);
}

/// Replacing a row with one at the same path updates the model at that
/// path.
proof fn lemma_rows_model_update(s: Seq<SchemaRow>, i: int, nr: SchemaRow)
    requires
        rows_wf(s),
        0 <= i < s.len(),
        nr.path@ == s[i].path@,
        leaves_wf(nr.leaves@),
    ensures
        rows_model(s.update(i, nr)) == rows_model(s).insert(nr.path@, leaves_model(nr.leaves@)),
        rows_wf(s.update(i, nr)),
    decreases s.len(),
{
    let p = nr.path@;
    if i == s.len() - 1 {
        assert(s.update(i, nr).drop_last() =~= s.drop_last());
        assert(rows_model(s.update(i, nr)) =~= rows_model(s).insert(p, leaves_model(nr.leaves@)));
    } else {
        lemma_rows_model_update(s.drop_last(), i, nr);
        assert(s.update(i, nr).drop_last() =~= s.drop_last().update(i, nr));
        assert(s.update(i, nr).last() == s.last());
        assert(s.last().path@ != p);
        assert(rows_model(s.update(i, nr)) =~= rows_model(s).insert(p, leaves_model(nr.leaves@)));
    }
}

/// The row with the given path, if any.
fn find_row_index(rows: &Vec<SchemaRow>, p: &SchemaPath) -> (r: Option<usize>)
    ensures
        match r {
            Some(i) => i < rows@.len() && rows@[i as int].path@ == p@,
            None => forall|j: int| 0 <= j < rows@.len() ==> (#[trigger] rows@[j].path@) != p@,
        },
{
    let mut i: usize = 0;
    while i < rows.len()
        invariant
            i <= rows@.len(),
            forall|j: int| 0 <= j < i ==> (#[trigger] rows@[j].path@) != p@,
        decreases rows@.len() - i,
    {
        if rows[i].path.same_as(p) {
            return Some(i);
        }
        i = i + 1;
    }
    None
}

/// The leaf with the given shape, if any.
fn find_leaf_index(leaves: &Vec<Leaf>, sh: Shape) -> (r: Option<usize>)
    ensures
        match r {
            Some(i) => i < leaves@.len() && shape_of(leaves@[i as int].kind@) == sh,
            None => forall|j: int|
                0 <= j < leaves@.len() ==> shape_of(#[trigger] leaves@[j].kind@) != sh,
        },
{
    let mut i: usize = 0;
    while i < leaves.len()
        invariant
            i <= leaves@.len(),
            forall|j: int| 0 <= j < i ==> shape_of(#[trigger] leaves@[j].kind@) != sh,
        decreases leaves@.len() - i,
    {
        if shape_of_exec(&leaves[i].kind) == sh {
            return Some(i);
        }
        i = i + 1;
    }
    None
}

/// The summary after recording one value at one canonical path: the
/// value's shape merges into its leaf, or starts a new one.
pub open spec fn insert_value(
    m: Map<Seq<StepView>, Map<Shape, LeafView>>,
    p: Seq<StepView>,
    t: SchemaTypeView,
) -> Map<Seq<StepView>, Map<Shape, LeafView>> {
    let pm = if m.contains_key(p) {
        m[p]
    } else {
        Map::<Shape, LeafView>::empty()
    };
    let sh = shape_of(t);
    let l = if pm.contains_key(sh) {
        spec_merge(pm[sh], t)
    } else {
        new_leaf(t)
    };
    m.insert(p, pm.insert(sh, l))
}

/// Collects a per-path type schema from delivered events.
pub struct SchemaCollector {
    rows: Vec<SchemaRow>,
    errors: Vec<(SendPath, String)>,
    log: Ghost<Seq<Event<SchemaType>>>,
}

impl SchemaCollector {
    /// The collector keeps one row per canonical path and one leaf per
    /// shape.
    pub closed spec fn wf(&self) -> bool {
        rows_wf(self.rows@)
    }

    /// The schema summary so far.
    pub closed spec fn model(&self) -> Map<Seq<StepView>, Map<Shape, LeafView>> {
        rows_model(self.rows@)
    }

    /// The parse problems recorded so far, in arrival order.
    pub closed spec fn errors_list(&self) -> Seq<(SendPath, String)> {
        self.errors@
    }

    /// An empty collector.
    pub fn new() -> (r: SchemaCollector)
        ensures
            r.inv(),
            r.model() == Map::<Seq<StepView>, Map<Shape, LeafView>>::empty(),
            r.errors_list() == Seq::<(SendPath, String)>::empty(),
            r.delivered() == Seq::<Event<SchemaType>>::empty(),
    {
        let r = SchemaCollector { rows: Vec::new(), errors: Vec::new(), log: Ghost(Seq::empty()) };
        proof {
            assert(r.model() =~= replay(r.log@));
        }
        r
    }

    /// How many canonical paths the summary holds.
    pub fn row_count(&self) -> (r: usize)
        requires
            self.wf(),
        ensures
            r == self.model().dom().len(),
    {
        proof {
            lemma_rows_model_dom(self.rows@);
        }
        self.rows.len()
    }

    /// Records one event: a value merges into the summary under its
    /// canonical path, an error is kept for the report, and the
    /// path-seen and finished events change nothing.
    #[verifier::loop_isolation(false)]
    fn process_event(&mut self, ev: &Event<SchemaType>)
        ensures
            final(self).delivered() == old(self).delivered(),
            old(self).wf() ==> final(self).wf(),
            old(self).wf() ==> (match ev {
                Event::Value(p, t) => final(self).model() == insert_value(
                    old(self).model(),
                    canon_spec(p@),
                    t@,
                ),
                _ => final(self).model() == old(self).model(),
            }),
            (match ev {
                Event::Error(p, m) => {
                    &&& final(self).errors_list().len() == old(self).errors_list().len() + 1
                    &&& final(self).errors_list().drop_last() == old(self).errors_list()
                    &&& final(self).errors_list().last().0@ == p@
                    &&& final(self).errors_list().last().1@ == m@
                },
                _ => final(self).errors_list() == old(self).errors_list(),
            }),
    {
        match ev {
            Event::Value(p, t) => {
                let canon = SchemaPath::from_send_path(p);
                let sh = shape_of_exec(t);
                match find_row_index(&self.rows, &canon) {
                    Some(i) => {
                        proof {
                            if old(self).wf() {
                                lemma_rows_model_hit(self.rows@, i as int);
                            }
                        }
                        let ghost old_rows = self.rows@;
                        let ghost old_leaves = self.rows@[i as int].leaves@;
                        let row = &mut self.rows[i];
                        match find_leaf_index(&row.leaves, sh) {
                            Some(j) => {
                                proof {
                                    if old(self).wf() {
                                        lemma_leaves_model_hit(old(self).rows@[i as int].leaves@, j as int);
                                    }
                                }
                                let lf = &mut row.leaves[j];
                                merge_into(lf, t);
                                proof {
                                    if old(self).wf() {
                                        lemma_leaves_model_update(
                                            old_leaves,
                                            j as int,
                                            row.leaves@[j as int],
                                        );
                                    }
                                }
                            },
                            None => {
                                proof {
                                    if old(self).wf() {
                                        lemma_leaves_model_miss(old(self).rows@[i as int].leaves@, sh);
                                    }
                                }
                                let nl = Leaf::new(t.duplicate());
                                proof {
                                    if old(self).wf() {
                                        lemma_leaves_model_push(old_leaves, nl);
                                    }
                                }
                                row.leaves.push(nl);
                            },
                        }
                        proof {
                            if old(self).wf() {
                                lemma_rows_model_update(old_rows, i as int, self.rows@[i as int]);
                            }
                        }
                    },
                    None => {
                        proof {
                            if old(self).wf() {
                                lemma_rows_model_miss(self.rows@, canon@);
                            }
                        }
                        let mut leaves: Vec<Leaf> = Vec::new();
                        leaves.push(Leaf::new(t.duplicate()));
                        let nr = SchemaRow { path: canon, leaves };
                        proof {
                            lemma_rows_model_push(self.rows@, nr);
                            assert(nr.leaves@.len() == 1);
                            assert(nr.leaves@.drop_last() =~= Seq::<Leaf>::empty());
                            assert(nr.leaves@.last() == nr.leaves@[0]);
                            assert(leaves_model(nr.leaves@) == leaves_model(
                                nr.leaves@.drop_last(),
                            ).insert(shape_of(nr.leaves@.last().kind@), nr.leaves@.last()@));
                            assert(leaves_model(nr.leaves@) =~= Map::<
                                Shape,
                                LeafView,
                            >::empty().insert(shape_of(nr.leaves@[0].kind@), nr.leaves@[0]@));
                        }
                        self.rows.push(nr);
                    },
                }
            },
            Event::Error(p, m) => {
                self.errors.push((p.duplicate(), m.clone()));
                proof {
                    assert(self.errors@.drop_last() =~= old(self).errors@);
                }
            },
            Event::Path(_, _) => {},
            Event::Finished => {},
        }
    }
}

/// The number of rows equals the number of summarized paths.
proof fn lemma_rows_model_dom(s: Seq<SchemaRow>)
    requires
        rows_wf(s),
    ensures
        rows_model(s).dom().len() == s.len(),
        rows_model(s).dom().finite(),
    decreases s.len(),
{
    if s.len() > 0 {
        lemma_rows_model_dom(s.drop_last());
        lemma_rows_model_miss(s.drop_last(), s.last().path@);
    }
}

/// The summary that a sequence of delivered events builds up: every
/// value event merges into its canonical path, and nothing else changes
/// the summary.
pub open spec fn replay(evs: Seq<Event<SchemaType>>) -> Map<Seq<StepView>, Map<Shape, LeafView>>
    decreases evs.len(),
{
    if evs.len() == 0 {
        Map::<Seq<StepView>, Map<Shape, LeafView>>::empty()
    } else {
        let m = replay(evs.drop_last());
        match evs.last() {
            Event::Value(p, t) => insert_value(m, canon_spec(p@), t@),
            _ => m,
        }
    }
}

impl Sender<SchemaType> for SchemaCollector {
    closed spec fn delivered(&self) -> Seq<Event<SchemaType>> {
        self.log@
    }

    /// The collector is well formed and its summary is exactly the
    /// replay of every event it accepted.
    open spec fn inv(&self) -> bool {
        self.wf() && self.model() == replay(self.delivered())
    }

    /// A direct call into an owned consumer: it cannot fail.
    open spec fn infallible(&self) -> bool {
        true
    }

    /// Accepts every event and records it at once: the direct-call
    /// delivery of the single-threaded pipeline. A value merges into the
    /// summary under its canonical path; an error is recorded for the
    /// report; the path-seen and finished events change neither.
    fn send(&mut self, ev: Event<SchemaType>) -> (r: Result<(), SendError>)
        ensures
            r is Ok,
            (match ev {
                Event::Value(p, t) => {
                    &&& old(self).wf() ==> final(self).model() == insert_value(
                        old(self).model(),
                        canon_spec(p@),
                        t@,
                    )
                    &&& final(self).errors_list() == old(self).errors_list()
                },
                Event::Error(p, m) => {
                    &&& old(self).wf() ==> final(self).model() == old(self).model()
                    &&& final(self).errors_list().len() == old(self).errors_list().len() + 1
                    &&& final(self).errors_list().drop_last() == old(self).errors_list()
                    &&& final(self).errors_list().last().0@ == p@
                    &&& final(self).errors_list().last().1@ == m@
                },
                _ => {
                    &&& old(self).wf() ==> final(self).model() == old(self).model()
                    &&& final(self).errors_list() == old(self).errors_list()
                },
            }),
    {
        self.process_event(&ev);
        let ghost newlog = self.log@.push(ev);
        proof {
            assert(newlog.drop_last() =~= old(self).log@);
        }
        self.log = Ghost(newlog);
        Ok(())
    }
}

/// Merging only grows a leaf: the kind stays, the count never shrinks,
/// and the aggregate only widens — a larger string length, a wider
/// numeric range.
pub proof fn lemma_merge_widens(l: LeafView, t: SchemaTypeView)
    ensures
        spec_merge(l, t).kind == l.kind,
        spec_merge(l, t).count >= l.count,
        (match (l.aggregate, spec_merge(l, t).aggregate) {
            (SchemaTypeView::String(a), SchemaTypeView::String(b)) => b >= a,
            (
                SchemaTypeView::Number(NumberTypeView::Unsigned(a)),
                SchemaTypeView::Number(NumberTypeView::Unsigned(b)),
            ) => b >= a,
            (
                SchemaTypeView::Number(NumberTypeView::Signed(alo, ahi)),
                SchemaTypeView::Number(NumberTypeView::Signed(blo, bhi)),
            ) => blo <= alo && bhi >= ahi,
            (
                SchemaTypeView::Number(NumberTypeView::Float(alo, ahi)),
                SchemaTypeView::Number(NumberTypeView::Float(blo, bhi)),
            ) => (!alo.nan ==> crate::numbers::fle(blo, alo)) && (!ahi.nan ==> crate::numbers::fle(
                ahi,
                bhi,
            )),
            _ => true,
        }),
{
    match l.aggregate {
        SchemaTypeView::Number(NumberTypeView::Float(alo, ahi)) => {
            crate::numbers::lemma_fle_total(alo, alo);
            crate::numbers::lemma_fle_total(ahi, ahi);
            match t {
                SchemaTypeView::Number(NumberTypeView::Float(blo, bhi)) => {
                    crate::numbers::lemma_fle_total(alo, blo);
                    crate::numbers::lemma_fle_total(ahi, bhi);
                },
                _ => {},
            }
        },
        _ => {},
    }
}

/// Widening with two same-shape values gives the same aggregate in
/// either order.
proof fn lemma_widen_exchange(agg: SchemaTypeView, t1: SchemaTypeView, t2: SchemaTypeView)
    requires
        shape_of(t1) == shape_of(t2),
    ensures
        widen(widen(agg, t1), t2) == widen(widen(agg, t2), t1),
{
    match (agg, t1, t2) {
        (
            SchemaTypeView::Number(NumberTypeView::Float(alo, ahi)),
            SchemaTypeView::Number(NumberTypeView::Float(b1, c1)),
            SchemaTypeView::Number(NumberTypeView::Float(b2, c2)),
        ) => {
            lemma_float_minmax_assoc(alo, b1, b2);
            lemma_float_minmax_assoc(alo, b2, b1);
            lemma_float_minmax_comm(b1, b2);
            lemma_float_minmax_assoc(ahi, c1, c2);
            lemma_float_minmax_assoc(ahi, c2, c1);
            lemma_float_minmax_comm(c1, c2);
        },
        (
            SchemaTypeView::Unknown(a),
            SchemaTypeView::Unknown(b1),
            SchemaTypeView::Unknown(b2),
        ) => {
            lemma_str_le_total(a, b1);
            lemma_str_le_total(a, b2);
            lemma_str_le_total(b1, b2);
            if str_le(a, b1) && str_le(b1, b2) {
                lemma_str_le_trans(a, b1, b2);
            }
            if str_le(a, b2) && str_le(b2, b1) {
                lemma_str_le_trans(a, b2, b1);
            }
            if str_le(b2, b1) && str_le(b1, a) {
                lemma_str_le_trans(b2, b1, a);
            }
            if str_le(b1, b2) && str_le(b2, a) {
                lemma_str_le_trans(b1, b2, a);
            }
        },
        _ => {},
    }
}

/// Merging two same-shape values into a leaf gives the same leaf in
/// either order.
proof fn lemma_merge_exchange(l: LeafView, t1: SchemaTypeView, t2: SchemaTypeView)
    requires
        shape_of(t1) == shape_of(t2),
    ensures
        spec_merge(spec_merge(l, t1), t2) == spec_merge(spec_merge(l, t2), t1),
{
    lemma_widen_exchange(l.aggregate, t1, t2);
    assert(spec_merge(spec_merge(l, t1), t2) =~= spec_merge(spec_merge(l, t2), t1));
}

/// Widening is commutative on two same-shape values.
proof fn lemma_widen_comm(t1: SchemaTypeView, t2: SchemaTypeView)
    requires
        shape_of(t1) == shape_of(t2),
    ensures
        widen(t1, t2) == widen(t2, t1),
{
    match (t1, t2) {
        (
            SchemaTypeView::Number(NumberTypeView::Float(b1, c1)),
            SchemaTypeView::Number(NumberTypeView::Float(b2, c2)),
        ) => {
            lemma_float_minmax_comm(b1, b2);
            lemma_float_minmax_comm(c1, c2);
        },
        (SchemaTypeView::Unknown(a), SchemaTypeView::Unknown(b)) => {
            lemma_str_le_total(a, b);
        },
        _ => {},
    }
}

/// A leaf seeded with one value and merged with another does not depend
/// on which of the two came first.
proof fn lemma_new_merge_symm(t1: SchemaTypeView, t2: SchemaTypeView)
    requires
        shape_of(t1) == shape_of(t2),
    ensures
        spec_merge(new_leaf(t1), t2) == spec_merge(new_leaf(t2), t1),
{
    lemma_widen_comm(t1, t2);
    assert(spec_merge(new_leaf(t1), t2) =~= spec_merge(new_leaf(t2), t1));
}

/// Recording two values gives the same summary in either order.
proof fn lemma_insert_value_exchange(
    m: Map<Seq<StepView>, Map<Shape, LeafView>>,
    p1: Seq<StepView>,
    t1: SchemaTypeView,
    p2: Seq<StepView>,
    t2: SchemaTypeView,
)
    ensures
        insert_value(insert_value(m, p1, t1), p2, t2) == insert_value(
            insert_value(m, p2, t2),
            p1,
            t1,
        ),
{
    let lhs = insert_value(insert_value(m, p1, t1), p2, t2);
    let rhs = insert_value(insert_value(m, p2, t2), p1, t1);
    if p1 != p2 {
        assert(lhs =~~= rhs);
    } else {
        let sh1 = shape_of(t1);
        let sh2 = shape_of(t2);
        if sh1 == sh2 {
            let pm = if m.contains_key(p1) {
                m[p1]
            } else {
                Map::<Shape, LeafView>::empty()
            };
            if pm.contains_key(sh1) {
                lemma_merge_exchange(pm[sh1], t1, t2);
            } else {
                lemma_new_merge_symm(t1, t2);
            }
            assert(lhs =~~= rhs);
        } else {
            assert(lhs =~~= rhs);
        }
    }
}

/// The summary after recording a sequence of (canonical path, value)
/// pairs, in order.
pub open spec fn collect_values(
    m0: Map<Seq<StepView>, Map<Shape, LeafView>>,
    s: Seq<(Seq<StepView>, SchemaTypeView)>,
) -> Map<Seq<StepView>, Map<Shape, LeafView>>
    decreases s.len(),
{
    if s.len() == 0 {
        m0
    } else {
        insert_value(collect_values(m0, s.drop_last()), s.last().0, s.last().1)
    }
}

/// Any pair of the sequence can be recorded last without changing the
/// summary.
proof fn lemma_collect_pull(
    m0: Map<Seq<StepView>, Map<Shape, LeafView>>,
    s: Seq<(Seq<StepView>, SchemaTypeView)>,
    j: int,
)
    requires
        0 <= j < s.len(),
    ensures
        collect_values(m0, s) == insert_value(collect_values(m0, s.remove(j)), s[j].0, s[j].1),
    decreases s.len(),
{
    if j == s.len() - 1 {
        assert(s.remove(j) =~= s.drop_last());
    } else {
        lemma_collect_pull(m0, s.drop_last(), j);
        assert(s.remove(j).drop_last() =~= s.drop_last().remove(j));
        assert(s.remove(j).last() == s.last());
        lemma_insert_value_exchange(
            collect_values(m0, s.drop_last().remove(j)),
            s[j].0,
            s[j].1,
            s.last().0,
            s.last().1,
        );
    }
}

/// Schema aggregation is order-independent: recording any permutation of
/// the same multiset of (canonical path, value) pairs, starting from the
/// same summary, ends in the same summary.
pub proof fn lemma_collect_order_independent(
    m0: Map<Seq<StepView>, Map<Shape, LeafView>>,
    s1: Seq<(Seq<StepView>, SchemaTypeView)>,
    s2: Seq<(Seq<StepView>, SchemaTypeView)>,
)
    requires
        s1.to_multiset() == s2.to_multiset(),
    ensures
        collect_values(m0, s1) == collect_values(m0, s2),
    decreases s1.len(),
{
    broadcast use vstd::seq_lib::group_to_multiset_ensures;

    if s1.len() == 0 {
        assert(s2.to_multiset().len() == 0);
        assert(s2.len() == 0);
    } else {
        let x = s1.last();
        assert(s1.contains(x));
        assert(s1.to_multiset().count(x) > 0);
        assert(s2.to_multiset().count(x) > 0);
        assert(s2.contains(x));
        let j = choose|j: int| 0 <= j < s2.len() && s2[j] == x;
        lemma_collect_pull(m0, s2, j);
        assert(s1.remove(s1.len() - 1) =~= s1.drop_last());
        assert(s1.drop_last().to_multiset() =~= s1.to_multiset().remove(x));
        assert(s2.remove(j).to_multiset() =~= s2.to_multiset().remove(x));
        lemma_collect_order_independent(m0, s1.drop_last(), s2.remove(j));
    }
}

/// What `collect_type` returns, for each kind of scalar token: the exact
/// classification, a pure function of the token. A string's length is its
/// character count; a floating value is the decimal meaning of its text.
pub open spec fn collect_type_rel(ev: JsonToken<String>, r: SchemaTypeView) -> bool {
    match ev {
        JsonToken::String(v) => {
            if v@ == "NaN"@ {
                r == SchemaTypeView::Number(
                    NumberTypeView::Float(
                        crate::numbers::spec_parse_float(v@),
                        crate::numbers::spec_parse_float(v@),
                    ),
                )
            } else {
                r == SchemaTypeView::String(v@.len() as u64)
            }
        },
        JsonToken::Number(v) => match classify_number(v@) {
            NumClass::Unsigned(n) => r == SchemaTypeView::Number(NumberTypeView::Unsigned(n)),
            NumClass::Signed(i) => r == SchemaTypeView::Number(NumberTypeView::Signed(i, i)),
            NumClass::Floating => r == SchemaTypeView::Number(
                NumberTypeView::Float(
                    crate::numbers::spec_parse_float(v@),
                    crate::numbers::spec_parse_float(v@),
                ),
            ),
            NumClass::NotNumber => r == SchemaTypeView::Unknown(v@),
        },
        JsonToken::Boolean(_) => r == SchemaTypeView::Boolean,
        JsonToken::Null => r == SchemaTypeView::Null,
        _ => true,
    }
}

/// Classifies one scalar token into a type-lattice element: a string by
/// its character count, a number by its `serde_json` classification — a
/// floating value kept as the decimal meaning of its text — and the `NaN`
/// sentinel string as a floating value. Equal tokens always classify
/// equally.
pub fn collect_type(ev: &JsonToken<String>) -> (r: SchemaType)
    requires
        ev.is_scalar(),
    ensures
        collect_type_rel(*ev, r@),
{
    match ev {
        JsonToken::String(v) => {
            let nan = "NaN".to_owned();
            proof {
                reveal_strlit("NaN");
            }
            if <String as PartialEq>::eq(v, &nan) {
                let f = parse_float(v.as_str());
                let g = f.duplicate();
                SchemaType::Number(NumberType::Float(f, g))
            } else {
                SchemaType::String(v.unicode_len() as u64)
            }
        },
        JsonToken::Number(v) => {
            match classify(v.as_str()) {
                NumClass::Unsigned(n) => SchemaType::Number(NumberType::Unsigned(n)),
                NumClass::Signed(i) => SchemaType::Number(NumberType::Signed(i, i)),
                NumClass::Floating => {
                    let f = parse_float(v.as_str());
                    let g = f.duplicate();
                    SchemaType::Number(NumberType::Float(f, g))
                },
                NumClass::NotNumber => SchemaType::Unknown(v.clone()),
            }
        },
        JsonToken::Boolean(_) => SchemaType::Boolean,
        JsonToken::Null => SchemaType::Null,
        _ => SchemaType::Null,
    }
}

/// Translates scalar tokens to schema types and sends them on: the
/// handler of the schema pipeline. It matches every path.
pub struct EventConverter {}

impl EventConverter {
    /// A converter.
    pub fn new() -> (r: EventConverter)
        ensures
            r == (EventConverter {  }),
    {
        EventConverter {  }
    }
}

impl Handler<SchemaType> for EventConverter {
    open spec fn match_path_spec(&self, path: Seq<crate::jsonpath::StepView>) -> bool {
        true
    }

    open spec fn sends(
        &self,
        path: Seq<crate::jsonpath::Step>,
        ev: JsonToken<String>,
        out: Event<SchemaType>,
    ) -> bool {
        out matches Event::Value(p, t) && p.0@ == path && collect_type_rel(ev, t@)
    }

    fn match_path(&self, _path: &JsonPath) -> (r: bool)
        ensures
            r,
    {
        true
    }

    /// Sends exactly one `Value` event holding the token's schema type at
    /// the token's path.
    fn maybe_send_value<X: Sender<SchemaType>>(
        &self,
        path: &JsonPath,
        ev: &JsonToken<String>,
        tx: &mut X,
    ) -> (r: Result<
        (),
        SendError,
    >)
        ensures
            r is Ok ==> {
                &&& final(tx).delivered().last() matches Event::Value(p, t)
                &&& p.0@ == crate::jsonpath::path_steps(*path)
                &&& collect_type_rel(*ev, t@)
            },
    {
        let t = collect_type(ev);
        tx.send(Event::Value(SendPath::from_json_path(path), t))
    }
}

/// Collects the schema of one token stream: walks the document with an
/// [`EventConverter`] feeding a [`SchemaCollector`], which never refuses
/// an event. The nesting depth is not limited here; a caller that must
/// bound it runs [`traverse`] itself.
///
/// The collector's log realizes exactly the reference walk of the
/// consumed tokens — one `Value` event per scalar, holding its canonical
/// classification at its traversal path, one `Error` event per reported
/// problem — closed by one `Finished` event, the last entry; and the
/// summary is exactly the replay of that log.
pub fn schema<S: JsonEvents>(src: &mut S, policy: ErrorPolicy) -> (r: SchemaCollector)
    ensures
        r.inv(),
        r.model() == replay(r.delivered()),
        ({
            let (ems, flow, rest) = crate::handler::walk_value(
                old(src).remaining(),
                Seq::<crate::jsonpath::Step>::empty(),
                0,
                policy,
                u64::MAX,
            );
            &&& final(src).remaining() == rest
            &&& r.delivered().len() == ems.len() + 1
            &&& r.delivered().last() is Finished
            &&& forall|i: int|
                0 <= i < r.delivered().len() - 1 ==> !(#[trigger] r.delivered()[i] is Finished)
            &&& crate::handler::events_match(
                (EventConverter {  }),
                ems,
                r.delivered().take(ems.len() as int),
            )
        }),
{
    let mut collector = SchemaCollector::new();
    let converter = EventConverter::new();
    let res = traverse(&converter, src, &mut collector, policy, u64::MAX);
    proof {
        assert(res is Ok);
    }
    match res {
        Ok(()) => {},
        Err(_) => {},
    }
    proof {
        let ghost (ems, flow, rest) = crate::handler::walk_value(
            old(src).remaining(),
            Seq::<crate::jsonpath::Step>::empty(),
            0,
            policy,
            u64::MAX,
        );
        assert(collector.delivered().take(ems.len() as int) =~= collector.delivered().subrange(
            0,
            collector.delivered().len() - 1,
        ));
    }
    collector
}

/// The decimal text of a signed number.
pub open spec fn spec_signed_digits(n: int) -> Seq<char> {
    if n < 0 {
        seq!['-'] + spec_digits((-n) as nat)
    } else {
        spec_digits(n as nat)
    }
}

/// The decimal text of a signed number, computed.
fn i64_to_string(n: i64) -> (r: String)
    ensures
        r@ == spec_signed_digits(n as int),
{
    if n < 0 {
        let mag: u64 = (-(n as i128)) as u64;
        let mut r = String::new();
        r.append("-");
        let digits = u64_to_string(mag);
        r.append(digits.as_str());
        proof {
            reveal_strlit("-");
            assert(r@ =~= spec_signed_digits(n as int));
        }
        r
    } else {
        u64_to_string(n as u64)
    }
}

/// The rendered text of a schema type: its name and its statistics.
pub open spec fn spec_type_text(t: SchemaTypeView) -> Seq<char> {
    match t {
        SchemaTypeView::String(n) => "String("@ + spec_digits(n as nat) + ")"@,
        SchemaTypeView::Number(NumberTypeView::Unsigned(n)) => "Number(Unsigned("@ + spec_digits(
            n as nat,
        ) + "))"@,
        SchemaTypeView::Number(NumberTypeView::Signed(lo, hi)) => "Number(Signed("@
            + spec_signed_digits(lo as int) + ", "@ + spec_signed_digits(hi as int) + "))"@,
        SchemaTypeView::Number(NumberTypeView::Float(lo, hi)) => "Number(Float("@ + lo.text + ", "@
            + hi.text + "))"@,
        SchemaTypeView::Boolean => "Boolean"@,
        SchemaTypeView::Null => "Null"@,
        SchemaTypeView::Unknown(raw) => "Unknown("@ + raw + ")"@,
    }
}

/// Renders a schema type.
pub fn type_text(t: &SchemaType) -> (r: String)
    ensures
        r@ == spec_type_text(t@),
{
    proof {
        reveal_strlit("String(");
        reveal_strlit("Number(Unsigned(");
        reveal_strlit("Number(Signed(");
        reveal_strlit("Number(Float(");
        reveal_strlit(")");
        reveal_strlit("))");
        reveal_strlit(", ");
        reveal_strlit("Boolean");
        reveal_strlit("Null");
        reveal_strlit("Unknown(");
    }
    match t {
        SchemaType::String(n) => {
            let mut r = String::new();
            r.append("String(");
            let d = u64_to_string(*n);
            r.append(d.as_str());
            r.append(")");
            r
        },
        SchemaType::Number(NumberType::Unsigned(n)) => {
            let mut r = String::new();
            r.append("Number(Unsigned(");
            let d = u64_to_string(*n);
            r.append(d.as_str());
            r.append("))");
            r
        },
        SchemaType::Number(NumberType::Signed(lo, hi)) => {
            let mut r = String::new();
            r.append("Number(Signed(");
            let a = i64_to_string(*lo);
            r.append(a.as_str());
            r.append(", ");
            let b = i64_to_string(*hi);
            r.append(b.as_str());
            r.append("))");
            r
        },
        SchemaType::Number(NumberType::Float(lo, hi)) => {
            let mut r = String::new();
            r.append("Number(Float(");
            r.append(lo.text.as_str());
            r.append(", ");
            r.append(hi.text.as_str());
            r.append("))");
            r
        },
        SchemaType::Boolean => "Boolean".to_owned(),
        SchemaType::Null => "Null".to_owned(),
        SchemaType::Unknown(raw) => {
            let mut r = String::new();
            r.append("Unknown(");
            r.append(raw.as_str());
            r.append(")");
            r
        },
    }
}

/// The rendered text of one leaf: its widened aggregate and its count.
pub open spec fn spec_leaf_text(l: LeafView) -> Seq<char> {
    spec_type_text(l.aggregate) + ":"@ + spec_digits(l.count as nat)
}

/// Renders one leaf.
pub fn leaf_text(l: &Leaf) -> (r: String)
    ensures
        r@ == spec_leaf_text(l@),
{
    proof {
        reveal_strlit(":");
    }
    let mut r = type_text(&l.aggregate);
    r.append(":");
    let c = u64_to_string(l.count);
    r.append(c.as_str());
    r
}

/// The rendered text of one canonical step: the key, or `[]` for the
/// wildcard.
pub open spec fn spec_step_text(s: StepView) -> Seq<char> {
    match s {
        StepView::Key(k) => k,
        StepView::Index => "[]"@,
    }
}

/// The rendered text of a canonical path: steps joined by `/`.
pub open spec fn spec_path_text(s: Seq<StepView>) -> Seq<char>
    decreases s.len(),
{
    if s.len() == 0 {
        Seq::<char>::empty()
    } else if s.len() == 1 {
        spec_step_text(s.last())
    } else {
        spec_path_text(s.drop_last()) + "/"@ + spec_step_text(s.last())
    }
}

/// Renders a canonical path.
#[verifier::loop_isolation(false)]
pub fn path_text(p: &SchemaPath) -> (r: String)
    ensures
        r@ == spec_path_text(p@),
{
    proof {
        reveal_strlit("/");
        reveal_strlit("[]");
    }
    let mut r = String::new();
    let mut i: usize = 0;
    while i < p.0.len()
        invariant
            i <= p.0@.len(),
            r@ == spec_path_text(p@.subrange(0, i as int)),
        decreases p.0@.len() - i,
    {
        if i > 0 {
            r.append("/");
        }
        match &p.0[i] {
            Step::Key(k) => {
                r.append(k.as_str());
            },
            Step::Index => {
                r.append("[]");
            },
        }
        i = i + 1;
        proof {
            let cur = p@.subrange(0, i as int);
            assert(cur.drop_last() =~= p@.subrange(0, i - 1));
            assert(cur.last() == p@[i - 1]);
            assert(p@[i - 1] == p.0@[i - 1]@);
        }
    }
    proof {
        assert(p@.subrange(0, p@.len() as int) =~= p@);
    }
    r
}

/// The rendered text of the leaves at one path: a single leaf plain, or
/// several bracketed and joined by `,`.
pub open spec fn spec_leaves_text(s: Seq<LeafView>) -> Seq<char> {
    if s.len() == 1 {
        spec_leaf_text(s[0])
    } else {
        seq!['['] + spec_leaves_join(s) + seq![']']
    }
}

/// The rendered leaves joined by `,`.
pub open spec fn spec_leaves_join(s: Seq<LeafView>) -> Seq<char>
    decreases s.len(),
{
    if s.len() == 0 {
        Seq::<char>::empty()
    } else if s.len() == 1 {
        spec_leaf_text(s.last())
    } else {
        spec_leaves_join(s.drop_last()) + seq![','] + spec_leaf_text(s.last())
    }
}

/// Renders the leaves of one row.
#[verifier::loop_isolation(false)]
fn leaves_text(leaves: &Vec<Leaf>) -> (r: String)
    ensures
        r@ == spec_leaves_text(leaves.deep_view()),
{
    proof {
        reveal_strlit("[");
        reveal_strlit("]");
        reveal_strlit(",");
    }
    if leaves.len() == 1 {
        let r = leaf_text(&leaves[0]);
        proof {
            assert(leaves.deep_view()[0] == leaves@[0]@);
        }
        r
    } else {
        let mut r = String::new();
        r.append("[");
        let mut i: usize = 0;
        while i < leaves.len()
            invariant
                i <= leaves@.len(),
                r@ == seq!['['] + spec_leaves_join(leaves.deep_view().subrange(0, i as int)),
            decreases leaves@.len() - i,
        {
            if i > 0 {
                r.append(",");
            }
            let t = leaf_text(&leaves[i]);
            r.append(t.as_str());
            i = i + 1;
            proof {
                let cur = leaves.deep_view().subrange(0, i as int);
                let prev = leaves.deep_view().subrange(0, i - 1);
                assert(cur.drop_last() =~= prev);
                assert(cur.last() == leaves@[i - 1]@);
                if i == 1 {
                    assert(spec_leaves_join(cur) == spec_leaf_text(cur.last()));
                    assert(prev =~= Seq::<LeafView>::empty());
                    assert(r@ =~= seq!['['] + spec_leaves_join(cur));
                } else {
                    assert(spec_leaves_join(cur) == spec_leaves_join(prev) + seq![',']
                        + spec_leaf_text(cur.last()));
                    assert(r@ =~= seq!['['] + spec_leaves_join(cur));
                }
            }
        }
        r.append("]");
        proof {
            assert(leaves.deep_view().subrange(0, leaves.deep_view().len() as int)
                =~= leaves.deep_view());
            assert(r@ =~= seq!['['] + spec_leaves_join(leaves.deep_view()) + seq![']']);
        }
        r
    }
}

/// The rendered text of one report row: the path, a space, the leaves.
pub open spec fn report_line(p: Seq<StepView>, ls: Seq<LeafView>) -> Seq<char> {
    spec_path_text(p) + " "@ + spec_leaves_text(ls)
}

/// Whether a sequence of lines is in lexicographic order.
pub open spec fn lines_sorted(s: Seq<String>) -> bool {
    forall|i: int, j: int| 0 <= i < j < s.len() ==> crate::numbers::str_le(#[trigger] s[i]@, #[trigger] s[j]@)
}

/// The texts of a sequence of lines.
pub open spec fn line_views(s: Seq<String>) -> Seq<Seq<char>> {
    s.map_values(|x: String| x@)
}

/// Sorts lines lexicographically by code point, keeping exactly the same
/// multiset of texts.
#[verifier::loop_isolation(false)]
fn sort_lines(input: Vec<String>) -> (r: Vec<String>)
    ensures
        r@.len() == input@.len(),
        lines_sorted(r@),
        line_views(r@).to_multiset() == line_views(input@).to_multiset(),
{
    broadcast use vstd::seq_lib::group_to_multiset_ensures;

    let mut src = input;
    let mut out: Vec<String> = Vec::new();
    proof {
        assert(line_views(out@) =~= Seq::<Seq<char>>::empty());
    }
    loop
        invariant
            lines_sorted(out@),
            out@.len() + src@.len() == input@.len(),
            line_views(out@).to_multiset().add(line_views(src@).to_multiset()) == line_views(
                input@,
            ).to_multiset(),
            forall|a: int, b: int|
                0 <= a < out@.len() && 0 <= b < src@.len() ==> crate::numbers::str_le(
                    #[trigger] out@[a]@,
                    #[trigger] src@[b]@,
                ),
        decreases src@.len(),
    {
        if src.len() == 0 {
            return out;
        }
        // index of the least remaining line
        let mut m: usize = 0;
        let mut k: usize = 1;
        proof {
            lemma_str_le_total(src@[0]@, src@[0]@);
        }
        while k < src.len()
            invariant
                m < src@.len(),
                k <= src@.len(),
                forall|j: int| 0 <= j < k ==> crate::numbers::str_le(src@[m as int]@, #[trigger] src@[j]@),
            decreases src@.len() - k,
        {
            if text_le_str(&src[k], &src[m]) {
                proof {
                    assert forall|j: int| 0 <= j < k + 1 implies crate::numbers::str_le(
                        src@[k as int]@,
                        #[trigger] src@[j]@,
                    ) by {
                        if j < k {
                            lemma_str_le_trans(src@[k as int]@, src@[m as int]@, src@[j]@);
                        } else {
                            lemma_str_le_total(src@[k as int]@, src@[k as int]@);
                        }
                    }
                }
                m = k;
            } else {
                proof {
                    lemma_str_le_total(src@[k as int]@, src@[m as int]@);
                }
            }
            k = k + 1;
        }
        let ghost pre = src@;
        let least = src.remove(m);
        proof {
            assert(line_views(src@) =~= line_views(pre).remove(m as int));
            assert(line_views(pre)[m as int] == least@);
            assert(line_views(pre).remove(m as int).to_multiset() =~= line_views(
                pre,
            ).to_multiset().remove(least@));
            let ghost ov = line_views(out@);
            assert(line_views(out@.push(least)) =~= ov.push(least@));
            assert forall|x: Seq<char>|
                ov.push(least@).to_multiset().add(line_views(src@).to_multiset()).count(x)
                    == ov.to_multiset().add(line_views(pre).to_multiset()).count(x) by {
                assert(line_views(pre).to_multiset().count(least@) > 0);
            }
            assert(ov.push(least@).to_multiset().add(line_views(src@).to_multiset())
                =~= ov.to_multiset().add(line_views(pre).to_multiset()));
            assert forall|b: int| 0 <= b < src@.len() implies crate::numbers::str_le(
                least@,
                #[trigger] src@[b]@,
            ) by {
                if b < m {
                    assert(src@[b] == pre[b]);
                } else {
                    assert(src@[b] == pre[b + 1]);
                }
            }
        }
        out.push(least);
    }
}

/// Compares two owned lines lexicographically.
fn text_le_str(a: &String, b: &String) -> (r: bool)
    ensures
        r == crate::numbers::str_le(a@, b@),
{
    crate::numbers::text_le(a.as_str(), b.as_str())
}

impl SchemaCollector {
    /// The rendered rows of the report: each canonical path with its
    /// leaves, in storage order.
    pub closed spec fn rows_view(&self) -> Seq<(Seq<StepView>, Seq<LeafView>)> {
        self.rows@.map_values(|row: SchemaRow| (row.path@, row.leaves.deep_view()))
    }

    /// The report: one line per canonical path — the path, a space, and
    /// its leaves — sorted for determinism. The lines are exactly the
    /// rendered rows, one each.
    #[verifier::loop_isolation(false)]
    pub fn render_lines(&self) -> (r: Vec<String>)
        requires
            self.wf(),
        ensures
            r@.len() == self.model().dom().len(),
            lines_sorted(r@),
            line_views(r@).to_multiset() == self.rows_view().map_values(
                |pr: (Seq<StepView>, Seq<LeafView>)| report_line(pr.0, pr.1),
            ).to_multiset(),
    {
        proof {
            reveal_strlit(" ");
            lemma_rows_model_dom(self.rows@);
        }
        let mut lines: Vec<String> = Vec::new();
        let mut i: usize = 0;
        while i < self.rows.len()
            invariant
                i <= self.rows@.len(),
                lines@.len() == i,
                forall|j: int|
                    0 <= j < i ==> (#[trigger] lines@[j]@) == report_line(
                        self.rows@[j].path@,
                        self.rows@[j].leaves.deep_view(),
                    ),
            decreases self.rows@.len() - i,
        {
            let mut line = path_text(&self.rows[i].path);
            line.append(" ");
            let lt = leaves_text(&self.rows[i].leaves);
            line.append(lt.as_str());
            lines.push(line);
            i = i + 1;
        }
        proof {
            assert(line_views(lines@) =~= self.rows_view().map_values(
                |pr: (Seq<StepView>, Seq<LeafView>)| report_line(pr.0, pr.1),
            ));
        }
        sort_lines(lines)
    }

    /// The recorded parse problems: one line per problem — the message,
    /// then the affected path — in arrival order.
    #[verifier::loop_isolation(false)]
    pub fn render_errors(&self) -> (r: Vec<String>)
        ensures
            r@.len() == self.errors_list().len(),
    {
        proof {
            reveal_strlit(" at path '");
            reveal_strlit("'");
        }
        let mut lines: Vec<String> = Vec::new();
        let mut i: usize = 0;
        while i < self.errors.len()
            invariant
                i <= self.errors@.len(),
                lines@.len() == i,
            decreases self.errors@.len() - i,
        {
            let mut line = self.errors[i].1.clone();
            line.append(" at path '");
            let pt = send_path_text(&self.errors[i].0);
            line.append(pt.as_str());
            line.append("'");
            lines.push(line);
            i = i + 1;
        }
        lines
    }
}

/// The rendered text of one sent step: the key, or the index in decimal.
pub open spec fn spec_send_step_text(s: crate::jsonpath::StepView) -> Seq<char> {
    match s {
        crate::jsonpath::StepView::Key(k) => k,
        crate::jsonpath::StepView::Index(n) => spec_digits(n as nat),
    }
}

/// The rendered text of a sent path: steps joined by `/`.
pub open spec fn spec_send_path_text(s: Seq<crate::jsonpath::StepView>) -> Seq<char>
    decreases s.len(),
{
    if s.len() == 0 {
        Seq::<char>::empty()
    } else if s.len() == 1 {
        spec_send_step_text(s.last())
    } else {
        spec_send_path_text(s.drop_last()) + "/"@ + spec_send_step_text(s.last())
    }
}

/// Renders a sent path.
#[verifier::loop_isolation(false)]
pub fn send_path_text(p: &SendPath) -> (r: String)
    ensures
        r@ == spec_send_path_text(p@),
{
    proof {
        reveal_strlit("/");
    }
    let mut r = String::new();
    let mut i: usize = 0;
    while i < p.0.len()
        invariant
            i <= p.0@.len(),
            r@ == spec_send_path_text(p@.subrange(0, i as int)),
        decreases p.0@.len() - i,
    {
        if i > 0 {
            r.append("/");
        }
        match &p.0[i] {
            crate::jsonpath::Step::Key(k) => {
                r.append(k.as_str());
            },
            crate::jsonpath::Step::Index(n) => {
                let d = u64_to_string(*n);
                r.append(d.as_str());
            },
        }
        i = i + 1;
        proof {
            let cur = p@.subrange(0, i as int);
            assert(cur.drop_last() =~= p@.subrange(0, i - 1));
            assert(cur.last() == p@[i - 1]);
            assert(p@[i - 1] == p.0@[i - 1]@);
        }
    }
    proof {
        assert(p@.subrange(0, p@.len() as int) =~= p@);
    }
    r
}

/// The (canonical path, value) pairs a sequence of events carries, in
/// order; events that carry no value contribute nothing.
pub open spec fn value_pairs(evs: Seq<Event<SchemaType>>) -> Seq<(Seq<StepView>, SchemaTypeView)>
    decreases evs.len(),
{
    if evs.len() == 0 {
        Seq::<(Seq<StepView>, SchemaTypeView)>::empty()
    } else {
        let rest = value_pairs(evs.drop_last());
        match evs.last() {
            Event::Value(p, t) => rest.push((canon_spec(p@), t@)),
            _ => rest,
        }
    }
}

/// Replaying a log builds exactly the summary of its value pairs.
pub proof fn lemma_replay_is_collect(evs: Seq<Event<SchemaType>>)
    ensures
        replay(evs) == collect_values(
            Map::<Seq<StepView>, Map<Shape, LeafView>>::empty(),
            value_pairs(evs),
        ),
    decreases evs.len(),
{
    if evs.len() > 0 {
        lemma_replay_is_collect(evs.drop_last());
        match evs.last() {
            Event::Value(p, t) => {
                let pairs = value_pairs(evs.drop_last());
                assert(pairs.push((canon_spec(p@), t@)).drop_last() =~= pairs);
            },
            _ => {},
        }
    }
}

/// Two delivery logs whose value pairs are the same multiset replay to
/// the same summary: a collector's final state does not depend on the
/// order in which same-multiset values were delivered.
pub proof fn lemma_replay_order_independent(
    evs1: Seq<Event<SchemaType>>,
    evs2: Seq<Event<SchemaType>>,
)
    requires
        value_pairs(evs1).to_multiset() == value_pairs(evs2).to_multiset(),
    ensures
        replay(evs1) == replay(evs2),
{
    lemma_replay_is_collect(evs1);
    lemma_replay_is_collect(evs2);
    lemma_collect_order_independent(
        Map::<Seq<StepView>, Map<Shape, LeafView>>::empty(),
        value_pairs(evs1),
        value_pairs(evs2),
    );
}

} // verus!
