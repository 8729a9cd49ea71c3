//! What every compiled constraint can do: check an instance of each kind.
use crate::perfect_precision_number::{float_is_finite, float_number, PerfectPrecisionNumber};
use crate::value::{Object, Value};
use vstd::prelude::*;

verus! {

/// The revisions of the schema language, oldest first.
#[derive(Debug, Clone, Copy, PartialEq, Eq, Structural)]
pub enum Draft {
    Draft4,
    Draft6,
    Draft7,
}

impl Draft {
    /// The place of the revision among the revisions.
    pub open spec fn rank(self) -> nat {
        match self {
            Draft::Draft4 => 4,
            Draft::Draft6 => 6,
            Draft::Draft7 => 7,
        }
    }

    /// Whether this revision is `other` or a later one.
    pub fn at_least(self, other: Draft) -> (r: bool)
        ensures
            r == (self.rank() >= other.rank()),
    {
        match (self, other) {
            (_, Draft::Draft4) => true,
            (Draft::Draft4, _) => false,
            (_, Draft::Draft6) => true,
            (Draft::Draft6, _) => false,
            (Draft::Draft7, Draft::Draft7) => true,
        }
    }
}

/// Why a schema could not be compiled.
#[derive(Debug, Clone, Copy, PartialEq, Eq, Structural)]
pub enum CompilationError {
    /// The value of the keyword has the wrong kind.
    SchemaError,
}

/// One constraint that one instance does not meet.
#[derive(Debug)]
pub struct ValidationError<'a> {
    /// The instance that failed.
    pub instance: &'a Value,
    /// The keyword that it failed.
    pub keyword: &'static str,
    /// The keyword together with what it asks for: the limit, the divisor or
    /// the format that the instance does not meet.
    pub description: String,
}

/// A compiled constraint. It has one check for each kind of JSON value; a
/// constraint that says nothing about a kind accepts every value of it.
pub trait Validate {
    /// The arrays that the constraint accepts.
    spec fn accepts_array(&self, items: Seq<Value>) -> bool;

    /// The booleans that the constraint accepts.
    spec fn accepts_boolean(&self, value: bool) -> bool;

    /// Whether the constraint accepts null.
    spec fn accepts_null(&self) -> bool;

    /// The numbers that the constraint accepts.
    spec fn accepts_number(&self, value: PerfectPrecisionNumber) -> bool;

    /// The objects that the constraint accepts.
    spec fn accepts_object(&self, value: Object) -> bool;

    /// The texts that the constraint accepts.
    spec fn accepts_string(&self, value: Seq<char>) -> bool;

    /// The keyword that the constraint was compiled from.
    spec fn keyword(&self) -> Seq<char>;

    /// The keyword together with what it asks for, as a text.
    spec fn described(&self) -> Seq<char>;

    fn is_valid_array(&self, items: &[Value]) -> (r: bool)
        ensures
            r == self.accepts_array(items@),
    ;

    fn is_valid_boolean(&self, value: bool) -> (r: bool)
        ensures
            r == self.accepts_boolean(value),
    ;

    fn is_valid_null(&self) -> (r: bool)
        ensures
            r == self.accepts_null(),
    ;

    fn is_valid_perfect_precision_number(&self, value: &PerfectPrecisionNumber) -> (r: bool)
        ensures
            r == self.accepts_number(*value),
    ;

    fn is_valid_object(&self, value: &Object) -> (r: bool)
        ensures
            r == self.accepts_object(*value),
    ;

    fn is_valid_string(&self, value: &str) -> (r: bool)
        ensures
            r == self.accepts_string(value@),
    ;

    /// The name of the keyword, for the records of what failed.
    fn keyword_name(&self) -> (r: &'static str)
        ensures
            r@ == self.keyword(),
    ;

    /// The keyword together with what it asks for, for the records of what
    /// failed.
    fn description(&self) -> (r: String)
        ensures
            r@ == self.described(),
    ;

    /// Checks a double, given by its bits, as the number that it is exactly.
    fn is_valid_number(&self, instance_bits: u64) -> (r: bool)
        requires
            float_is_finite(instance_bits),
        ensures
            exists|n: PerfectPrecisionNumber|
                n.wf() && float_number(instance_bits) == (n.kind(), n.numerator(), n.scale()) && r
                    == #[trigger] self.accepts_number(n),
    {
        match PerfectPrecisionNumber::try_from_f64_bits(instance_bits) {
            Ok(number) => self.is_valid_perfect_precision_number(&number),
            Err(_) => true,
        }
    }

    /// Checks a signed integer as the number that it is.
    fn is_valid_signed_integer(&self, value: i64) -> (r: bool)
        ensures
            exists|n: PerfectPrecisionNumber|
                n.wf() && n is Integer && n.numerator() == value && r == #[trigger] self.accepts_number(
                    n,
                ),
    {
        let number = if value < 0 {
            PerfectPrecisionNumber::from_native(true, (-(value + 1)) as u128 + 1)
        } else {
            PerfectPrecisionNumber::from_native(false, value as u128)
        };
        self.is_valid_perfect_precision_number(&number)
    }

    /// Checks an unsigned integer as the number that it is.
    fn is_valid_unsigned_integer(&self, value: u64) -> (r: bool)
        ensures
            exists|n: PerfectPrecisionNumber|
                n.wf() && n is Integer && n.numerator() == value && r == #[trigger] self.accepts_number(
                    n,
                ),
    {
        let number = PerfectPrecisionNumber::from_native(false, value as u128);
        self.is_valid_perfect_precision_number(&number)
    }

    /// Looks at the kind of the instance, here and nowhere else, and hands
    /// it to the check for that kind.
    fn is_valid(&self, instance: &Value) -> (r: bool)
        ensures
            r == match *instance {
                Value::Null => self.accepts_null(),
                Value::Bool(value) => self.accepts_boolean(value),
                Value::Number(value) => self.accepts_number(value),
                Value::String(value) => self.accepts_string(value@),
                Value::Array(items) => self.accepts_array(items@),
                Value::Object(value) => self.accepts_object(value),
            },
    {
        match instance {
            Value::Null => self.is_valid_null(),
            Value::Bool(value) => self.is_valid_boolean(*value),
            Value::Number(value) => self.is_valid_perfect_precision_number(value),
            Value::String(value) => self.is_valid_string(value.as_str()),
            Value::Array(items) => self.is_valid_array(items.as_slice()),
            Value::Object(value) => self.is_valid_object(value),
        }
    }

    /// The constraints that the instance does not meet: none where it is
    /// valid, and else one record of this constraint.
    fn validate<'a>(&self, instance: &'a Value) -> (r: Vec<ValidationError<'a>>)
        ensures
            r@.len() == 0 <==> match *instance {
                Value::Null => self.accepts_null(),
                Value::Bool(value) => self.accepts_boolean(value),
                Value::Number(value) => self.accepts_number(value),
                Value::String(value) => self.accepts_string(value@),
                Value::Array(items) => self.accepts_array(items@),
                Value::Object(value) => self.accepts_object(value),
            },
            r@.len() <= 1,
            forall|i: int|
                0 <= i < r@.len() ==> (#[trigger] r@[i]).instance == instance
                    && r@[i].keyword@ == self.keyword() && r@[i].description@
                    == self.described(),
    {
        let mut errors: Vec<ValidationError<'a>> = Vec::new();
        if !self.is_valid(instance) {
            errors.push(
                ValidationError {
                    instance,
                    keyword: self.keyword_name(),
                    description: self.description(),
                },
            );
        }
        errors
    }
}

/// Whether the constraint accepts the instance: what its check for the kind
/// of the instance says.
pub open spec fn accepts<V: Validate + ?Sized>(validator: &V, instance: Value) -> bool {
    match instance {
        Value::Null => validator.accepts_null(),
        Value::Bool(value) => validator.accepts_boolean(value),
        Value::Number(value) => validator.accepts_number(value),
        Value::String(value) => validator.accepts_string(value@),
        Value::Array(items) => validator.accepts_array(items@),
        Value::Object(value) => validator.accepts_object(value),
    }
}

} // verus!
