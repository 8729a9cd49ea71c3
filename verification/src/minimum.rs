//! The `minimum` keyword: a number is valid where it is not below the limit.
use crate::perfect_precision_number::PerfectPrecisionNumber;
use crate::validator::{CompilationError, Validate};
use crate::value::{Object, Value};
use num_cmp::NumCmp;
use vstd::prelude::*;
use vstd::string::StringExecFns;

verus! {

/// `minimum` with an exact limit.
#[derive(Debug)]
pub struct MinimumValidator {
    limit: PerfectPrecisionNumber,
}

impl MinimumValidator {
    /// The validator with the given limit.
    pub fn new(limit: PerfectPrecisionNumber) -> (r: Self)
        ensures
            r.limit() == limit,
    {
        MinimumValidator { limit }
    }

    /// The keyword and its limit.
    pub fn name(&self) -> (r: String)
        ensures
            r@ == "minimum: "@ + self.limit().text(),
    {
        let mut text = String::from_str("minimum: ");
        let limit = self.limit.to_string();
        text.append(limit.as_str());
        text
    }

    /// The least number that is valid.
    pub closed spec fn limit(&self) -> PerfectPrecisionNumber {
        self.limit
    }
}

impl Validate for MinimumValidator {
    open spec fn accepts_array(&self, items: Seq<Value>) -> bool {
        true
    }

    open spec fn accepts_boolean(&self, value: bool) -> bool {
        true
    }

    open spec fn accepts_null(&self) -> bool {
        true
    }

    /// The numbers that are not below the limit.
    open spec fn accepts_number(&self, value: PerfectPrecisionNumber) -> bool {
        !value.spec_less_than(&self.limit())
    }

    open spec fn accepts_object(&self, value: Object) -> bool {
        true
    }

    open spec fn accepts_string(&self, value: Seq<char>) -> bool {
        true
    }

    open spec fn keyword(&self) -> Seq<char> {
        "minimum"@
    }

    /// The keyword and the limit.
    open spec fn described(&self) -> Seq<char> {
        "minimum: "@ + self.limit().text()
    }

    fn is_valid_array(&self, items: &[Value]) -> (r: bool) {
        true
    }

    fn is_valid_boolean(&self, value: bool) -> (r: bool) {
        true
    }

    fn is_valid_null(&self) -> (r: bool) {
        true
    }

    fn is_valid_perfect_precision_number(&self, value: &PerfectPrecisionNumber) -> (r: bool) {
        !value.less_than(&self.limit)
    }

    fn is_valid_object(&self, value: &Object) -> (r: bool) {
        true
    }

    fn is_valid_string(&self, value: &str) -> (r: bool) {
        true
    }

    fn keyword_name(&self) -> (r: &'static str) {
        "minimum"
    }

    fn description(&self) -> (r: String) {
        self.name()
    }
}

/// Compiles the value of a `minimum` keyword. The value has to be a number,
/// which becomes the limit.
pub fn compile(schema: &Value) -> (r: Option<Result<MinimumValidator, CompilationError>>)
    ensures
        match *schema {
            Value::Number(limit) => r matches Some(Ok(validator)) && validator.limit().wf()
                && validator.limit().kind() == limit.kind() && validator.limit().numerator()
                == limit.numerator() && validator.limit().scale() == limit.scale(),
            _ => r == Some(Err::<MinimumValidator, _>(CompilationError::SchemaError)),
        },
{
    if let Value::Number(limit) = schema {
        return Some(Ok(MinimumValidator::new(limit.clone())));
    }
    Some(Err(CompilationError::SchemaError))
}

/// `NumCmp::num_ge` of num_cmp on two unsigned numbers: whether the first is
/// at least the second.
#[verifier::external_body]
fn unsigned_ge(a: u64, b: u64) -> (r: bool)
    ensures
        r == (a >= b),
{
    NumCmp::num_ge(a, b)
}

/// `NumCmp::num_ge` of num_cmp on two signed numbers: whether the first is at
/// least the second.
#[verifier::external_body]
fn signed_ge(a: i64, b: i64) -> (r: bool)
    ensures
        r == (a >= b),
{
    NumCmp::num_ge(a, b)
}

/// `NumCmp::num_ge` of num_cmp on a signed and an unsigned number: whether the
/// first is at least the second, as whole numbers.
#[verifier::external_body]
fn signed_ge_unsigned(a: i64, b: u64) -> (r: bool)
    ensures
        r == (a >= b),
{
    NumCmp::num_ge(a, b)
}

/// `NumCmp::num_ge` of num_cmp on an unsigned and a signed number: whether the
/// first is at least the second, as whole numbers.
#[verifier::external_body]
fn unsigned_ge_signed(a: u64, b: i64) -> (r: bool)
    ensures
        r == (a >= b),
{
    NumCmp::num_ge(a, b)
}

/// `minimum` with a limit that fits an unsigned machine word.
#[derive(Debug, Clone, Copy)]
pub struct MinimumU64Validator {
    pub limit: u64,
}

impl MinimumU64Validator {
    /// Whether the unsigned instance is not below the limit.
    pub fn is_valid_unsigned_integer(&self, instance_value: u64) -> (r: bool)
        ensures
            r == (instance_value >= self.limit),
    {
        unsigned_ge(instance_value, self.limit)
    }

    /// Whether the signed instance is not below the limit.
    pub fn is_valid_signed_integer(&self, instance_value: i64) -> (r: bool)
        ensures
            r == (instance_value >= self.limit),
    {
        signed_ge_unsigned(instance_value, self.limit)
    }
}

/// `minimum` with a limit that fits a signed machine word.
#[derive(Debug, Clone, Copy)]
pub struct MinimumI64Validator {
    pub limit: i64,
}

impl MinimumI64Validator {
    /// Whether the unsigned instance is not below the limit.
    pub fn is_valid_unsigned_integer(&self, instance_value: u64) -> (r: bool)
        ensures
            r == (instance_value >= self.limit),
    {
        unsigned_ge_signed(instance_value, self.limit)
    }

    /// Whether the signed instance is not below the limit.
    pub fn is_valid_signed_integer(&self, instance_value: i64) -> (r: bool)
        ensures
            r == (instance_value >= self.limit),
    {
        signed_ge(instance_value, self.limit)
    }
}

} // verus!
