//! The limits a node parameter's value is held to, for the values made of integers and text.

use vstd::prelude::*;

use crate::node::error::{decimal, decimal_text};

verus! {

/// A limit on a parameter's value.
pub enum ParamLimit {
    /// Inclusive.
    IntRange { min: i32, max: i32 },
    /// In bytes of the UTF-8 text.
    StringMaxLength { max_length: usize },
    /// The value must be one of these names.
    EnumOneOf { options: Vec<&'static str> },
    /// Inclusive, independently per axis.
    Vector2IntRange { min: (i32, i32), max: (i32, i32) },
    /// The value must be one of these integers.
    IntList { values: Vec<i32> },
}

/// A parameter value, as far as a [`ParamLimit`] can judge it.
pub enum ParamInput<'a> {
    Int(i32),
    String(&'a str),
    Enum(&'a str),
    Vector2Int(i32, i32),
    /// A value of a kind no limit here speaks of.
    Other,
}

/// Why a value breaks a limit.
#[derive(Debug, Clone, Copy, PartialEq, Eq, Structural)]
pub enum ParamFault {
    /// An integer, or an integer pair, lies outside the inclusive range.
    OutOfRange,
    /// The text is `length` bytes long, more than `max_length`.
    TooLong { length: usize, max_length: usize },
    /// The name, or the integer, is none of the options.
    NotAnOption,
    /// The limit speaks of another kind of value.
    TypeMismatch,
}

/// Whether `options` holds a name equal to `s`.
pub open spec fn is_option(options: Seq<&'static str>, s: Seq<char>) -> bool {
    exists|i: int| 0 <= i < options.len() && (#[trigger] options[i])@ == s
}

/// What checking `value` against `limit` gives.
pub open spec fn limit_verdict(limit: ParamLimit, value: ParamInput) -> Result<(), ParamFault> {
    match limit {
        ParamLimit::IntRange { min, max } => match value {
            ParamInput::Int(v) => if v < min || v > max {
                Err(ParamFault::OutOfRange)
            } else {
                Ok(())
            },
            _ => Err(ParamFault::TypeMismatch),
        },
        ParamLimit::StringMaxLength { max_length } => match value {
            ParamInput::String(s) => if s.len() > max_length {
                Err(ParamFault::TooLong { length: s.len(), max_length })
            } else {
                Ok(())
            },
            _ => Err(ParamFault::TypeMismatch),
        },
        ParamLimit::EnumOneOf { options } => match value {
            ParamInput::Enum(s) => if is_option(options@, s@) {
                Ok(())
            } else {
                Err(ParamFault::NotAnOption)
            },
            _ => Err(ParamFault::TypeMismatch),
        },
        ParamLimit::Vector2IntRange { min, max } => match value {
            ParamInput::Vector2Int(x, y) => if x < min.0 || x > max.0 || y < min.1 || y > max.1 {
                Err(ParamFault::OutOfRange)
            } else {
                Ok(())
            },
            _ => Err(ParamFault::TypeMismatch),
        },
        ParamLimit::IntList { values } => match value {
            ParamInput::Int(v) => if values@.contains(v) {
                Ok(())
            } else {
                Err(ParamFault::NotAnOption)
            },
            _ => Err(ParamFault::TypeMismatch),
        },
    }
}

/// Ranges are inclusive: an integer passes `IntRange` exactly when it lies between the bounds,
/// and a pair passes `Vector2IntRange` exactly when each coordinate lies between the bounds of
/// its own axis; an integer outside fails as out of range.
pub proof fn lemma_ranges_are_inclusive(min: i32, max: i32, v: i32, pmin: (i32, i32), pmax: (i32, i32), x: i32, y: i32)
    ensures
        limit_verdict(ParamLimit::IntRange { min, max }, ParamInput::Int(v)) is Ok <==> min <= v <= max,
        !(min <= v <= max) ==> limit_verdict(ParamLimit::IntRange { min, max }, ParamInput::Int(v)) == Err::<
            (),
            ParamFault,
        >(ParamFault::OutOfRange),
        limit_verdict(ParamLimit::Vector2IntRange { min: pmin, max: pmax }, ParamInput::Vector2Int(x, y)) is Ok
            <==> pmin.0 <= x <= pmax.0 && pmin.1 <= y <= pmax.1,
        !(pmin.0 <= x <= pmax.0 && pmin.1 <= y <= pmax.1) ==> limit_verdict(
            ParamLimit::Vector2IntRange { min: pmin, max: pmax },
            ParamInput::Vector2Int(x, y),
        ) == Err::<(), ParamFault>(ParamFault::OutOfRange),
{
}

/// A text passes `StringMaxLength` exactly when it is no longer than the maximum, and fails
/// with its own length otherwise.
pub proof fn lemma_length_limit(max_length: usize, s: &str)
    ensures
        limit_verdict(ParamLimit::StringMaxLength { max_length }, ParamInput::String(s)) is Ok <==> s.len() <= max_length,
        s.len() > max_length ==> limit_verdict(ParamLimit::StringMaxLength { max_length }, ParamInput::String(s))
            == Err::<(), ParamFault>(ParamFault::TooLong { length: s.len(), max_length }),
{
}

/// A name passes `EnumOneOf` exactly when one of the options is that name, and an integer passes
/// `IntList` exactly when the list holds it; anything else fails as no option.
pub proof fn lemma_options_are_exact(options: Vec<&'static str>, s: &str, values: Vec<i32>, v: i32)
    ensures
        limit_verdict(ParamLimit::EnumOneOf { options }, ParamInput::Enum(s)) is Ok <==> exists|k: int|
            0 <= k < options@.len() && (#[trigger] options@[k])@ == s@,
        limit_verdict(ParamLimit::EnumOneOf { options }, ParamInput::Enum(s)) is Err ==> limit_verdict(
            ParamLimit::EnumOneOf { options },
            ParamInput::Enum(s),
        ) == Err::<(), ParamFault>(ParamFault::NotAnOption),
        limit_verdict(ParamLimit::IntList { values }, ParamInput::Int(v)) is Ok <==> exists|k: int|
            0 <= k < values@.len() && #[trigger] values@[k] == v,
        limit_verdict(ParamLimit::IntList { values }, ParamInput::Int(v)) is Err ==> limit_verdict(
            ParamLimit::IntList { values },
            ParamInput::Int(v),
        ) == Err::<(), ParamFault>(ParamFault::NotAnOption),
{
}

/// A value of another kind than the limit speaks of never passes, and fails as a type mismatch.
pub proof fn lemma_kinds_must_match(limit: ParamLimit, value: ParamInput)
    requires
        !(limit is IntRange && value is Int),
        !(limit is StringMaxLength && value is String),
        !(limit is EnumOneOf && value is Enum),
        !(limit is Vector2IntRange && value is Vector2Int),
        !(limit is IntList && value is Int),
    ensures
        limit_verdict(limit, value) == Err::<(), ParamFault>(ParamFault::TypeMismatch),
{
}

/// Whether one of `options` is the name `s`.
fn has_option(options: &Vec<&'static str>, s: &str) -> (r: bool)
    ensures
        r == is_option(options@, s@),
{
    let mut i: usize = 0;
    while i < options.len()
        invariant
            i <= options.len(),
            forall|j: int| 0 <= j < i ==> (#[trigger] options@[j])@ != s@,
        decreases options.len() - i,
    {
        if crate::nodes::same_text(options[i], s) {
            assert(options@[i as int]@ == s@);
            return true;
        }
        i = i + 1;
    }
    false
}

/// Whether `values` holds `v`.
fn has_value(values: &Vec<i32>, v: i32) -> (r: bool)
    ensures
        r == values@.contains(v),
{
    let mut i: usize = 0;
    while i < values.len()
        invariant
            i <= values.len(),
            forall|j: int| 0 <= j < i ==> values@[j] != v,
        decreases values.len() - i,
    {
        if values[i] == v {
            assert(values@[i as int] == v);
            return true;
        }
        i = i + 1;
    }
    false
}

impl ParamLimit {
    /// Checks `value` against this limit.
    pub fn check(&self, value: &ParamInput) -> (r: Result<(), ParamFault>)
        ensures
            r == limit_verdict(*self, *value),
    {
        match self {
            ParamLimit::IntRange { min, max } => match value {
                ParamInput::Int(v) => if *v < *min || *v > *max {
                    Err(ParamFault::OutOfRange)
                } else {
                    Ok(())
                },
                _ => Err(ParamFault::TypeMismatch),
            },
            ParamLimit::StringMaxLength { max_length } => match value {
                ParamInput::String(s) => {
                    let length = s.len();
                    if length > *max_length {
                        Err(ParamFault::TooLong { length, max_length: *max_length })
                    } else {
                        Ok(())
                    }
                },
                _ => Err(ParamFault::TypeMismatch),
            },
            ParamLimit::EnumOneOf { options } => match value {
                ParamInput::Enum(s) => if has_option(options, s) {
                    Ok(())
                } else {
                    Err(ParamFault::NotAnOption)
                },
                _ => Err(ParamFault::TypeMismatch),
            },
            ParamLimit::Vector2IntRange { min, max } => match value {
                ParamInput::Vector2Int(x, y) => if *x < min.0 || *x > max.0 || *y < min.1 || *y
                    > max.1 {
                    Err(ParamFault::OutOfRange)
                } else {
                    Ok(())
                },
                _ => Err(ParamFault::TypeMismatch),
            },
            ParamLimit::IntList { values } => match value {
                ParamInput::Int(v) => if has_value(values, *v) {
                    Ok(())
                } else {
                    Err(ParamFault::NotAnOption)
                },
                _ => Err(ParamFault::TypeMismatch),
            },
        }
    }
}

/// An integer as `Display` writes it: a minus sign before the digits of a negative one.
pub open spec fn int_text(v: int) -> Seq<char> {
    if v < 0 {
        "-"@ + decimal((-v) as nat)
    } else {
        decimal(v as nat)
    }
}

/// A pair of integers as `Debug` writes it, such as `(1, -2)`.
pub open spec fn pair_text(p: (i32, i32)) -> Seq<char> {
    "("@ + int_text(p.0 as int) + ", "@ + int_text(p.1 as int) + ")"@
}

/// The integers of `vs`, each as `int_text` writes it, joined by `, `.
pub open spec fn int_items_text(vs: Seq<i32>) -> Seq<char>
    decreases vs.len(),
{
    if vs.len() == 0 {
        Seq::empty()
    } else if vs.len() == 1 {
        int_text(vs[0] as int)
    } else {
        int_items_text(vs.drop_last()) + ", "@ + int_text(vs.last() as int)
    }
}

/// A list of integers as `Debug` writes it, such as `[1, -2]`.
pub open spec fn int_list_text(vs: Seq<i32>) -> Seq<char> {
    "["@ + int_items_text(vs) + "]"@
}

/// What `Debug` writes for a list of names: each quoted and escaped, in brackets.
pub uninterp spec fn names_debug_text(names: Seq<Seq<char>>) -> Seq<char>;

/// The message given when a value and a limit are of different kinds.
pub open spec fn type_mismatch_text() -> Seq<char> {
    "Type mismatch between constraint and value"@
}

/// The message that explains `fault`, the verdict of `limit` on `value`.
pub open spec fn fault_text(limit: ParamLimit, value: ParamInput, fault: ParamFault) -> Seq<char> {
    match (fault, limit, value) {
        (ParamFault::OutOfRange, ParamLimit::IntRange { min, max }, ParamInput::Int(v)) => "Value "@ + int_text(
            v as int,
        ) + " is out of range ["@ + int_text(min as int) + ", "@ + int_text(max as int) + "]"@,
        (ParamFault::OutOfRange, ParamLimit::Vector2IntRange { min, max }, ParamInput::Vector2Int(x, y)) => "Value "@
            + pair_text((x, y)) + " is out of range ["@ + pair_text(min) + ", "@ + pair_text(max) + "]"@,
        (ParamFault::TooLong { length, max_length }, _, _) => "String length "@ + decimal(length as nat)
            + " exceeds maximum length "@ + decimal(max_length as nat),
        (ParamFault::NotAnOption, ParamLimit::EnumOneOf { options }, ParamInput::Enum(s)) => "Value '"@ + s@
            + "' is not one of the allowed options: "@ + names_debug_text(options@.map_values(|o: &'static str| o@)),
        (ParamFault::NotAnOption, ParamLimit::IntList { values }, ParamInput::Int(v)) => "Value "@ + int_text(v as int)
            + " is not one of the allowed values: "@ + int_list_text(values@),
        _ => type_mismatch_text(),
    }
}

/// Writes `names` with std's `Debug` for a vector of `&str`, through `format!`. The contract
/// claims only that the text depends on nothing but the names, and calls it `names_debug_text`.
#[verifier::external_body]
fn names_debug(names: &Vec<&'static str>) -> (r: String)
    ensures
        r@ == names_debug_text(names@.map_values(|o: &'static str| o@)),
{
    format!("{:?}", names)
}

/// `v` written as `int_text` says.
fn int_string(v: i32) -> (r: String)
    ensures
        r@ == int_text(v as int),
{
    if v < 0 {
        let a: u32 = (-(v as i64)) as u32;
        let mut s = String::from_str("-");
        s.append(decimal_text(a as usize).as_str());
        s
    } else {
        let a: u32 = v as u32;
        decimal_text(a as usize)
    }
}

/// `p` written as `pair_text` says.
fn pair_string(p: (i32, i32)) -> (r: String)
    ensures
        r@ == pair_text(p),
{
    let mut s = String::from_str("(");
    s.append(int_string(p.0).as_str());
    s.append(", ");
    s.append(int_string(p.1).as_str());
    s.append(")");
    s
}

/// `values` written as `int_list_text` says.
fn int_list_string(values: &Vec<i32>) -> (r: String)
    ensures
        r@ == int_list_text(values@),
{
    let mut s = String::new();
    let mut i: usize = 0;
    while i < values.len()
        invariant
            i <= values@.len(),
            s@ == int_items_text(values@.subrange(0, i as int)),
        decreases values@.len() - i,
    {
        let ghost before = s@;
        if i > 0 {
            s.append(", ");
        }
        s.append(int_string(values[i]).as_str());
        proof {
            let next = values@.subrange(0, i + 1);
            assert(next.drop_last() =~= values@.subrange(0, i as int));
            assert(next.last() == values@[i as int]);
            if i == 0 {
                assert(before =~= Seq::<char>::empty());
                assert(s@ =~= int_text(values@[0] as int));
            } else {
                assert(s@ =~= before + ", "@ + int_text(values@[i as int] as int));
            }
        }
        i = i + 1;
    }
    proof {
        assert(values@.subrange(0, values@.len() as int) =~= values@);
    }
    let mut r = String::from_str("[");
    r.append(s.as_str());
    r.append("]");
    r
}

/// The message given when a value and a limit are of different kinds.
pub fn type_mismatch_message() -> (r: String)
    ensures
        r@ == type_mismatch_text(),
{
    String::from_str("Type mismatch between constraint and value")
}

impl ParamLimit {
    /// The message that explains `fault`, the verdict of this limit on `value`.
    pub fn fault_message(&self, value: &ParamInput, fault: ParamFault) -> (r: String)
        ensures
            r@ == fault_text(*self, *value, fault),
    {
        match (fault, self, value) {
            (ParamFault::OutOfRange, ParamLimit::IntRange { min, max }, ParamInput::Int(v)) => {
                let mut s = String::from_str("Value ");
                s.append(int_string(*v).as_str());
                s.append(" is out of range [");
                s.append(int_string(*min).as_str());
                s.append(", ");
                s.append(int_string(*max).as_str());
                s.append("]");
                s
            },
            (ParamFault::OutOfRange, ParamLimit::Vector2IntRange { min, max }, ParamInput::Vector2Int(x, y)) => {
                let mut s = String::from_str("Value ");
                s.append(pair_string((*x, *y)).as_str());
                s.append(" is out of range [");
                s.append(pair_string(*min).as_str());
                s.append(", ");
                s.append(pair_string(*max).as_str());
                s.append("]");
                s
            },
            (ParamFault::TooLong { length, max_length }, _, _) => {
                let mut s = String::from_str("String length ");
                s.append(decimal_text(length).as_str());
                s.append(" exceeds maximum length ");
                s.append(decimal_text(max_length).as_str());
                s
            },
            (ParamFault::NotAnOption, ParamLimit::EnumOneOf { options }, ParamInput::Enum(name)) => {
                let mut s = String::from_str("Value '");
                s.append(name);
                s.append("' is not one of the allowed options: ");
                s.append(names_debug(options).as_str());
                s
            },
            (ParamFault::NotAnOption, ParamLimit::IntList { values }, ParamInput::Int(v)) => {
                let mut s = String::from_str("Value ");
                s.append(int_string(*v).as_str());
                s.append(" is not one of the allowed values: ");
                s.append(int_list_string(values).as_str());
                s
            },
            _ => type_mismatch_message(),
        }
    }

    /// Checks `value` against this limit and, where it fails, says why in words.
    pub fn validate(&self, value: &ParamInput) -> (r: Result<(), String>)
        ensures
            r is Ok <==> limit_verdict(*self, *value) is Ok,
            limit_verdict(*self, *value) matches Err(f) ==> r matches Err(m) && m@ == fault_text(*self, *value, f),
    {
        match self.check(value) {
            Ok(()) => Ok(()),
            Err(f) => Err(self.fault_message(value, f)),
        }
    }
}

} // verus!
