//! The tagged union of resolvable values and its mathematical model.
//!
//! A value is immutable once constructed and is compared by content.
//! Scalars are strings, numbers and colors; a block value carries an
//! ordered sequence of scalars (as bound, for example, by a variable
//! definition that lists several scalars on one line).

use vstd::prelude::*;

verus! {

/// Mathematical model of a scalar value.
pub enum ScalarM {
    StrV(Seq<char>),
    NumV(int),
    ColorV(int, int, int),
}

/// Mathematical model of a resolvable value.
pub enum ValueM {
    StrV(Seq<char>),
    NumV(int),
    ColorV(int, int, int),
    BlockV(Seq<ScalarM>),
}

/// A scalar value: one string, number or color.
#[derive(Debug)]
pub enum ScalarValue {
    Str(String),
    Num(i64),
    Color(i64, i64, i64),
}

/// A resolvable value, as produced by literals and variable lookups.
#[derive(Debug)]
pub enum ExpressionValue {
    Str(String),
    Num(i64),
    Color(i64, i64, i64),
    Block(Vec<ScalarValue>),
}

impl View for ScalarValue {
    type V = ScalarM;

    open spec fn view(&self) -> ScalarM {
        match self {
            ScalarValue::Str(s) => ScalarM::StrV(s@),
            ScalarValue::Num(n) => ScalarM::NumV(*n as int),
            ScalarValue::Color(r, g, b) => ScalarM::ColorV(*r as int, *g as int, *b as int),
        }
    }
}

impl View for ExpressionValue {
    type V = ValueM;

    open spec fn view(&self) -> ValueM {
        match self {
            ExpressionValue::Str(s) => ValueM::StrV(s@),
            ExpressionValue::Num(n) => ValueM::NumV(*n as int),
            ExpressionValue::Color(r, g, b) => ValueM::ColorV(*r as int, *g as int, *b as int),
            ExpressionValue::Block(items) => ValueM::BlockV(
                items@.map_values(|s: ScalarValue| s@),
            ),
        }
    }
}

/// The type name a value model carries into diagnostics.
pub open spec fn spec_kind_name(v: ValueM) -> Seq<char> {
    match v {
        ValueM::StrV(_) => "String"@,
        ValueM::NumV(_) => "Number"@,
        ValueM::ColorV(_, _, _) => "Color"@,
        ValueM::BlockV(_) => "Block"@,
    }
}

impl ScalarValue {
    /// An exact copy of this scalar.
    pub fn duplicate(&self) -> (r: ScalarValue)
        ensures
            r@ == self@,
    {
        match self {
            ScalarValue::Str(s) => ScalarValue::Str(s.clone()),
            ScalarValue::Num(n) => ScalarValue::Num(*n),
            ScalarValue::Color(r, g, b) => ScalarValue::Color(*r, *g, *b),
        }
    }
}

impl ExpressionValue {
    /// The type name used when this value appears in a diagnostic.
    pub fn kind_name(&self) -> (r: &'static str)
        ensures
            r@ == spec_kind_name(self@),
    {
        match self {
            ExpressionValue::Str(_) => "String",
            ExpressionValue::Num(_) => "Number",
            ExpressionValue::Color(_, _, _) => "Color",
            ExpressionValue::Block(_) => "Block",
        }
    }

    /// An exact copy of this value.
    pub fn duplicate(&self) -> (r: ExpressionValue)
        ensures
            r@ == self@,
    {
        match self {
            ExpressionValue::Str(s) => ExpressionValue::Str(s.clone()),
            ExpressionValue::Num(n) => ExpressionValue::Num(*n),
            ExpressionValue::Color(r, g, b) => ExpressionValue::Color(*r, *g, *b),
            ExpressionValue::Block(items) => {
                let mut copy: Vec<ScalarValue> = Vec::new();
                let mut i: usize = 0;
                while i < items.len()
                    invariant
                        i <= items.len(),
                        copy@.len() == i,
                        forall|j: int| 0 <= j < i ==> copy@[j]@ == items@[j]@,
                    decreases items.len() - i,
                {
                    copy.push(items[i].duplicate());
                    i = i + 1;
                }
                proof {
                    assert(copy@.map_values(|s: ScalarValue| s@)
                        =~= items@.map_values(|s: ScalarValue| s@));
                }
                ExpressionValue::Block(copy)
            },
        }
    }
}

} // verus!
