//! An EDN-style data notation: a value model with a canonical total order,
//! a reader that turns text into value trees with positioned errors, and a
//! printer that renders values back to text.

use vstd::prelude::*;

pub mod laws;
pub mod order;
pub mod parser;
pub mod printer;

verus! {

broadcast use vstd::std_specs::vec::group_vec_axioms, vstd::seq::axiom_seq_index_decreases;

/// A parsed value.
///
/// Floating-point literals are held in exact decimal form ([`FloatLit`])
/// rather than as machine floats, so that equality and the canonical total
/// order are decided exactly by what was written.
///
/// `Mapping` holds its key-value pairs, and `SetOf` its elements, strictly
/// sorted by the canonical total order ([`order::compare`]); the reader
/// always builds them that way, deduplicating as it inserts.
#[derive(Debug, PartialEq, Eq)]
pub enum Value {
    Nil,
    Boolean(bool),
    String(String),
    Char(char),
    Symbol(String),
    Keyword(String),
    Integer(i64),
    Float(FloatLit),
    List(Vec<Value>),
    Vector(Vec<Value>),
    Mapping(Vec<(Value, Value)>),
    SetOf(Vec<Value>),
    Tagged(String, Box<Value>),
}

/// A decimal floating-point literal in canonical form: `whole` and `frac`
/// hold decimal digits only, `whole` has no leading zero (except as the
/// single digit `0`), and `frac` has no trailing zeros.
#[derive(Debug, Clone, PartialEq, Eq)]
pub struct FloatLit {
    pub negative: bool,
    pub whole: String,
    pub frac: String,
}

/// The mathematical model of a [`Value`].
pub enum SpecValue {
    Nil,
    Boolean(bool),
    Str(Seq<char>),
    Char(char),
    Symbol(Seq<char>),
    Keyword(Seq<char>),
    Integer(int),
    Float(bool, Seq<char>, Seq<char>),
    List(Seq<SpecValue>),
    Vector(Seq<SpecValue>),
    Mapping(Seq<(SpecValue, SpecValue)>),
    SetOf(Seq<SpecValue>),
    Tagged(Seq<char>, Box<SpecValue>),
}

impl Value {
    /// The mathematical value that this node represents.
    pub open spec fn deep(&self) -> SpecValue
        decreases self, 1int,
    {
        match self {
            Value::Nil => SpecValue::Nil,
            Value::Boolean(b) => SpecValue::Boolean(*b),
            Value::String(s) => SpecValue::Str(s@),
            Value::Char(c) => SpecValue::Char(*c),
            Value::Symbol(s) => SpecValue::Symbol(s@),
            Value::Keyword(s) => SpecValue::Keyword(s@),
            Value::Integer(n) => SpecValue::Integer(*n as int),
            Value::Float(f) => SpecValue::Float(f.negative, f.whole@, f.frac@),
            Value::List(xs) => SpecValue::List(deep_of_seq(xs@)),
            Value::Vector(xs) => SpecValue::Vector(deep_of_seq(xs@)),
            Value::Mapping(xs) => SpecValue::Mapping(deep_of_pairs(xs@)),
            Value::SetOf(xs) => SpecValue::SetOf(deep_of_seq(xs@)),
            Value::Tagged(t, v) => SpecValue::Tagged(t@, Box::new((**v).deep())),
        }
    }
}

/// The models of a sequence of nodes, elementwise.
pub open spec fn deep_of_seq(xs: Seq<Value>) -> Seq<SpecValue>
    decreases xs, 0int,
{
    if xs.len() == 0 {
        Seq::empty()
    } else {
        deep_of_seq(xs.subrange(0, xs.len() - 1)).push(xs[xs.len() - 1].deep())
    }
}

/// The models of a sequence of key-value pairs, elementwise.
pub open spec fn deep_of_pairs(xs: Seq<(Value, Value)>) -> Seq<(SpecValue, SpecValue)>
    decreases xs, 0int,
{
    if xs.len() == 0 {
        Seq::empty()
    } else {
        deep_of_pairs(xs.subrange(0, xs.len() - 1)).push(
            (xs[xs.len() - 1].0.deep(), xs[xs.len() - 1].1.deep()),
        )
    }
}

impl View for Value {
    type V = SpecValue;

    open spec fn view(&self) -> SpecValue {
        self.deep()
    }
}

/// `deep_of_seq` is elementwise: it has the same length as its input and
/// models each node in place.
pub proof fn lemma_deep_of_seq(xs: Seq<Value>)
    ensures
        deep_of_seq(xs).len() == xs.len(),
        forall|i: int| 0 <= i < xs.len() ==> deep_of_seq(xs)[i] == xs[i].deep(),
    decreases xs.len(),
{
    if xs.len() > 0 {
        lemma_deep_of_seq(xs.subrange(0, xs.len() - 1));
        assert forall|i: int| 0 <= i < xs.len() implies deep_of_seq(xs)[i] == xs[i].deep() by {
            if i < xs.len() - 1 {
                assert(xs.subrange(0, xs.len() - 1)[i] == xs[i]);
            }
        }
    }
}

/// `deep_of_pairs` is elementwise: it has the same length as its input and
/// models each pair in place.
pub proof fn lemma_deep_of_pairs(xs: Seq<(Value, Value)>)
    ensures
        deep_of_pairs(xs).len() == xs.len(),
        forall|i: int| 0 <= i < xs.len() ==> deep_of_pairs(xs)[i] == (xs[i].0.deep(), xs[i].1.deep()),
    decreases xs.len(),
{
    if xs.len() > 0 {
        lemma_deep_of_pairs(xs.subrange(0, xs.len() - 1));
        assert forall|i: int| 0 <= i < xs.len() implies deep_of_pairs(xs)[i] == (
            xs[i].0.deep(),
            xs[i].1.deep(),
        ) by {
            if i < xs.len() - 1 {
                assert(xs.subrange(0, xs.len() - 1)[i] == xs[i]);
            }
        }
    }
}

/// Relies on `String::from_iter` (via `Iterator::collect`): collecting
/// characters yields the string of exactly those characters, in order.
#[verifier::external_body]
pub(crate) fn chars_to_string(v: &Vec<char>) -> (r: String)
    ensures
        r@ == v@,
{
    v.iter().collect()
}

impl From<bool> for Value {
    fn from(s: bool) -> (r: Self) {
        Value::Boolean(s)
    }
}

impl vstd::std_specs::convert::FromSpecImpl<bool> for Value {
    open spec fn obeys_from_spec() -> bool {
        true
    }

    open spec fn from_spec(s: bool) -> Self {
        Value::Boolean(s)
    }
}

impl<'a> From<&'a str> for Value {
    fn from(s: &'a str) -> (r: Self)
        ensures
            r@ == SpecValue::Str(s@),
    {
        Value::String(s.to_owned())
    }
}

impl<'a> vstd::std_specs::convert::FromSpecImpl<&'a str> for Value {
    open spec fn obeys_from_spec() -> bool {
        false
    }

    open spec fn from_spec(s: &'a str) -> Self {
        arbitrary()
    }
}

impl From<String> for Value {
    fn from(s: String) -> (r: Self) {
        Value::String(s)
    }
}

impl vstd::std_specs::convert::FromSpecImpl<String> for Value {
    open spec fn obeys_from_spec() -> bool {
        true
    }

    open spec fn from_spec(s: String) -> Self {
        Value::String(s)
    }
}

impl From<char> for Value {
    fn from(s: char) -> (r: Self) {
        Value::Char(s)
    }
}

impl vstd::std_specs::convert::FromSpecImpl<char> for Value {
    open spec fn obeys_from_spec() -> bool {
        true
    }

    open spec fn from_spec(s: char) -> Self {
        Value::Char(s)
    }
}

impl From<i64> for Value {
    fn from(s: i64) -> (r: Self) {
        Value::Integer(s)
    }
}

impl vstd::std_specs::convert::FromSpecImpl<i64> for Value {
    open spec fn obeys_from_spec() -> bool {
        true
    }

    open spec fn from_spec(s: i64) -> Self {
        Value::Integer(s)
    }
}

} // verus!
