//! The `multipleOf` keyword: a number is valid where it is the divisor taken
//! a whole number of times.
use crate::perfect_precision_number::PerfectPrecisionNumber;
use crate::validator::{CompilationError, Validate};
use crate::value::{Object, Value};
use vstd::prelude::*;
use vstd::string::StringExecFns;

verus! {

/// `multipleOf` with an exact divisor.
#[derive(Debug)]
pub struct MultipleOfValidator {
    multiple_of: PerfectPrecisionNumber,
}

impl MultipleOfValidator {
    /// The validator with the given divisor.
    pub fn compile(multiple_of: PerfectPrecisionNumber) -> (r: Result<Self, CompilationError>)
        ensures
            r matches Ok(validator) && validator.multiple_of() == multiple_of,
    {
        Ok(MultipleOfValidator { multiple_of })
    }

    /// The keyword and its divisor.
    pub fn name(&self) -> (r: String)
        ensures
            r@ == "multipleOf: "@ + self.multiple_of().text(),
    {
        let mut text = String::from_str("multipleOf: ");
        let divisor = self.multiple_of.to_string();
        text.append(divisor.as_str());
        text
    }

    /// The number of which the valid numbers are multiples.
    pub closed spec fn multiple_of(&self) -> PerfectPrecisionNumber {
        self.multiple_of
    }
}

impl Validate for MultipleOfValidator {
    open spec fn accepts_array(&self, items: Seq<Value>) -> bool {
        true
    }

    open spec fn accepts_boolean(&self, value: bool) -> bool {
        true
    }

    open spec fn accepts_null(&self) -> bool {
        true
    }

    /// The multiples of the divisor.
    open spec fn accepts_number(&self, value: PerfectPrecisionNumber) -> bool {
        value.spec_is_multiple_of(&self.multiple_of())
    }

    open spec fn accepts_object(&self, value: Object) -> bool {
        true
    }

    open spec fn accepts_string(&self, value: Seq<char>) -> bool {
        true
    }

    open spec fn keyword(&self) -> Seq<char> {
        "multipleOf"@
    }

    /// The keyword and the divisor.
    open spec fn described(&self) -> Seq<char> {
        "multipleOf: "@ + self.multiple_of().text()
    }

    fn is_valid_array(&self, items: &[Value]) -> (r: bool) {
        true
    }

    fn is_valid_boolean(&self, value: bool) -> (r: bool) {
        true
    }

    fn is_valid_null(&self) -> (r: bool) {
        true
    }

    fn is_valid_perfect_precision_number(&self, value: &PerfectPrecisionNumber) -> (r: bool) {
        value.is_multiple_of(&self.multiple_of)
    }

    fn is_valid_object(&self, value: &Object) -> (r: bool) {
        true
    }

    fn is_valid_string(&self, value: &str) -> (r: bool) {
        true
    }

    fn keyword_name(&self) -> (r: &'static str) {
        "multipleOf"
    }

    fn description(&self) -> (r: String) {
        self.name()
    }
}

/// Compiles the value of a `multipleOf` keyword. The value has to be a
/// number, which becomes the divisor.
pub fn compile(schema: &Value) -> (r: Option<Result<MultipleOfValidator, CompilationError>>)
    ensures
        match *schema {
            Value::Number(divisor) => r matches Some(Ok(validator)) && validator.multiple_of().wf()
                && validator.multiple_of().kind() == divisor.kind()
                && validator.multiple_of().numerator() == divisor.numerator()
                && validator.multiple_of().scale() == divisor.scale(),
            _ => r == Some(Err::<MultipleOfValidator, _>(CompilationError::SchemaError)),
        },
{
    if let Value::Number(multiple_of) = schema {
        return Some(MultipleOfValidator::compile(multiple_of.clone()));
    }
    Some(Err(CompilationError::SchemaError))
}

} // verus!
