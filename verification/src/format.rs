//! The `format` keyword: named checks, most of them on texts only. A format
//! that is not known, or not known to the draft in use, constrains nothing.
use crate::perfect_precision_number::PerfectPrecisionNumber;
use crate::validator::{Draft, Validate};
use crate::value::{Object, Value};
use vstd::prelude::*;
use vstd::string::StringExecFns;

verus! {

/// A check that a `format` keyword can name. Users implement it for formats
/// of their own. A format that says nothing about a kind of value accepts
/// every value of it.
pub trait FormatValidator {
    /// The arrays that the format accepts.
    spec fn accepts_array(&self, items: Seq<Value>) -> bool;

    /// The booleans that the format accepts.
    spec fn accepts_boolean(&self, value: bool) -> bool;

    /// Whether the format accepts null.
    spec fn accepts_null(&self) -> bool;

    /// The numbers that the format accepts.
    spec fn accepts_number(&self, value: PerfectPrecisionNumber) -> bool;

    /// The objects that the format accepts.
    spec fn accepts_object(&self, value: Object) -> bool;

    /// The texts that the format accepts.
    spec fn accepts_string(&self, value: Seq<char>) -> bool;

    /// The drafts in which the format is known.
    spec fn supports(&self, draft: Draft) -> bool;

    /// Whether the format applies to schemas of the given draft.
    fn supported_for_draft(&self, draft_version: Draft) -> (r: bool)
        ensures
            r == self.supports(draft_version),
    ;

    /// The name under which the format is known.
    spec fn name(&self) -> Seq<char>;

    /// The name of the format.
    fn format_name(&self) -> (r: &'static str)
        ensures
            r@ == self.name(),
    ;

    /// The format as the keyword and its value.
    fn default_to_string(&self) -> (r: String)
        ensures
            r@ == "format: "@ + self.name(),
    {
        let mut text = String::from_str("format: ");
        text.append(self.format_name());
        text
    }

    fn check_array(&self, items: &[Value]) -> (r: bool)
        ensures
            r == self.accepts_array(items@),
    ;

    fn check_boolean(&self, value: bool) -> (r: bool)
        ensures
            r == self.accepts_boolean(value),
    ;

    fn check_null(&self) -> (r: bool)
        ensures
            r == self.accepts_null(),
    ;

    fn check_number(&self, value: &PerfectPrecisionNumber) -> (r: bool)
        ensures
            r == self.accepts_number(*value),
    ;

    fn check_object(&self, value: &Object) -> (r: bool)
        ensures
            r == self.accepts_object(*value),
    ;

    fn check_string(&self, value: &str) -> (r: bool)
        ensures
            r == self.accepts_string(value@),
    ;
}

/// A format as a compiled constraint: each check is the check of the format.
#[derive(Debug)]
pub struct FormatKeyword<F: FormatValidator>(pub F);

impl<F: FormatValidator> Validate for FormatKeyword<F> {
    open spec fn accepts_array(&self, items: Seq<Value>) -> bool {
        self.0.accepts_array(items)
    }

    open spec fn accepts_boolean(&self, value: bool) -> bool {
        self.0.accepts_boolean(value)
    }

    open spec fn accepts_null(&self) -> bool {
        self.0.accepts_null()
    }

    open spec fn accepts_number(&self, value: PerfectPrecisionNumber) -> bool {
        self.0.accepts_number(value)
    }

    open spec fn accepts_object(&self, value: Object) -> bool {
        self.0.accepts_object(value)
    }

    open spec fn accepts_string(&self, value: Seq<char>) -> bool {
        self.0.accepts_string(value)
    }

    open spec fn keyword(&self) -> Seq<char> {
        "format"@
    }

    /// The keyword and the name of the format.
    open spec fn described(&self) -> Seq<char> {
        "format: "@ + self.0.name()
    }

    fn is_valid_array(&self, items: &[Value]) -> (r: bool) {
        self.0.check_array(items)
    }

    fn is_valid_boolean(&self, value: bool) -> (r: bool) {
        self.0.check_boolean(value)
    }

    fn is_valid_null(&self) -> (r: bool) {
        self.0.check_null()
    }

    fn is_valid_perfect_precision_number(&self, value: &PerfectPrecisionNumber) -> (r: bool) {
        self.0.check_number(value)
    }

    fn is_valid_object(&self, value: &Object) -> (r: bool) {
        self.0.check_object(value)
    }

    fn is_valid_string(&self, value: &str) -> (r: bool) {
        self.0.check_string(value)
    }

    fn keyword_name(&self) -> (r: &'static str) {
        "format"
    }

    fn description(&self) -> (r: String) {
        self.0.default_to_string()
    }
}

} // verus!
