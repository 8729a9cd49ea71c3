//! The formats that the schema language names, and their checks.
use crate::format::FormatValidator;
use crate::perfect_precision_number::PerfectPrecisionNumber;
use crate::validator::Draft;
use crate::value::{str_eq, Object, Value};
use vstd::prelude::*;

verus! {

/// What `char::is_alphanumeric` of std says of a character: whether Unicode
/// counts it as a letter or a number.
pub uninterp spec fn is_alphanumeric(c: char) -> bool;

/// Whether `chrono::DateTime::parse_from_rfc3339` reads the text as a date
/// and time.
pub uninterp spec fn rfc3339_parses(text: Seq<char>) -> bool;

/// Whether `chrono::NaiveDate::parse_from_str` reads the text as a date in
/// the given format.
pub uninterp spec fn date_parses(text: Seq<char>, format: Seq<char>) -> bool;

/// Whether `idna::domain_to_unicode` turns the domain name into Unicode
/// without an error.
pub uninterp spec fn domain_to_unicode_succeeds(domain: Seq<char>) -> bool;

/// Whether `url::Url::parse` reads the text as an absolute URL.
pub uninterp spec fn url_parses(text: Seq<char>) -> bool;

/// Whether `regex::Regex::new` accepts the pattern.
pub uninterp spec fn pattern_compiles(pattern: Seq<char>) -> bool;

/// Whether the regular expression made from the pattern by
/// `regex::Regex::new` matches somewhere in the text, as
/// `regex::Regex::is_match` tells.
pub uninterp spec fn pattern_matches(pattern: Seq<char>, text: Seq<char>) -> bool;

pub assume_specification[ char::is_alphanumeric ](c: char) -> (r: bool)
    ensures
        r == is_alphanumeric(c),
;

#[verifier::external_type_specification]
#[verifier::external_body]
pub struct ExRegex(regex::Regex);

/// `chrono::DateTime::parse_from_rfc3339`: whether it reads the text.
#[verifier::external_body]
fn parses_as_rfc3339(text: &str) -> (r: bool)
    ensures
        r == rfc3339_parses(text@),
{
    chrono::DateTime::parse_from_rfc3339(text).is_ok()
}

/// `chrono::NaiveDate::parse_from_str`: whether it reads the text in the
/// given format.
#[verifier::external_body]
fn parses_as_date(text: &str, format: &str) -> (r: bool)
    ensures
        r == date_parses(text@, format@),
{
    chrono::NaiveDate::parse_from_str(text, format).is_ok()
}

/// `idna::domain_to_unicode`: whether the second part of its result is no
/// error.
#[verifier::external_body]
fn converts_to_unicode(domain: &str) -> (r: bool)
    ensures
        r == domain_to_unicode_succeeds(domain@),
{
    idna::domain_to_unicode(domain).1.is_ok()
}

/// `url::Url::parse`: whether it reads the text.
#[verifier::external_body]
fn parses_as_url(text: &str) -> (r: bool)
    ensures
        r == url_parses(text@),
{
    url::Url::parse(text).is_ok()
}

/// A regular expression together with the pattern that it was made from.
/// [`Pattern::compile`] is the only way to make one.
pub struct Pattern {
    source: String,
    compiled: regex::Regex,
}

impl Pattern {
    /// The pattern that the expression was made from.
    pub closed spec fn source(&self) -> Seq<char> {
        self.source@
    }

    /// `regex::Regex::new`: the expression for the pattern, where the
    /// pattern is accepted.
    #[verifier::external_body]
    pub(crate) fn compile(source: &str) -> (r: Option<Pattern>)
        ensures
            r is Some <==> pattern_compiles(source@),
            r matches Some(pattern) ==> pattern.source() == source@,
    {
        match regex::Regex::new(source) {
            Ok(compiled) => Some(Pattern { source: source.to_string(), compiled }),
            Err(_) => None,
        }
    }

    /// `regex::Regex::is_match`: whether the expression matches somewhere in
    /// the text.
    #[verifier::external_body]
    pub(crate) fn is_match(&self, text: &str) -> (r: bool)
        ensures
            r == pattern_matches(self.source(), text@),
    {
        self.compiled.is_match(text)
    }
}

/// The text holds an `@`.
pub open spec fn valid_email(text: Seq<char>) -> bool {
    text.contains('@')
}

/// Whether the text holds an `@`: all that is asked of an email address.
pub fn is_valid_email(string: &str) -> (r: bool)
    ensures
        r == valid_email(string@),
{
    for c in it: string.chars()
        invariant
            it.seq() == string@,
            forall|i: int| 0 <= i < it.index() ==> string@[i] != '@',
    {
        if c == '@' {
            assert(string@[it.index() as int] == '@');
            return true;
        }
    }
    false
}

/// A character that may stand in a host name.
pub open spec fn host_character(c: char) -> bool {
    is_alphanumeric(c) || c == '-' || c == '.'
}

/// No character from `from` up to `to` is a dot.
pub open spec fn dot_free(text: Seq<char>, from: int, to: int) -> bool {
    forall|k: int| from <= k < to ==> text[k] != '.'
}

/// The text is a host name: it is not empty and has at most 255 characters,
/// all of them letters, numbers, hyphens or dots; it neither starts nor ends
/// with a hyphen; and no run of characters between dots is longer than 63.
pub open spec fn valid_hostname(text: Seq<char>) -> bool {
    &&& 0 < text.len() <= 255
    &&& text[0] != '-'
    &&& text.last() != '-'
    &&& forall|i: int| 0 <= i < text.len() ==> host_character(#[trigger] text[i])
    &&& forall|i: int, j: int|
        0 <= i <= j <= text.len() && #[trigger] dot_free(text, i, j) ==> j - i <= 63
}

/// Whether the text is a host name.
pub fn is_valid_hostname(string: &str) -> (r: bool)
    ensures
        r == valid_hostname(string@),
{
    let ghost text = string@;
    let mut count: usize = 0;
    let mut label: usize = 0;
    let mut last: char = ' ';
    for c in it: string.chars()
        invariant
            it.seq() == text,
            text == string@,
            count == it.index(),
            count <= 255,
            label <= 63,
            label <= count,
            count > 0 ==> text[0] != '-' && last == text[count - 1],
            forall|i: int| 0 <= i < count ==> host_character(#[trigger] text[i]),
            dot_free(text, count - label, count as int),
            label < count ==> text[count - label - 1] == '.',
            forall|i: int, j: int|
                0 <= i <= j <= count && #[trigger] dot_free(text, i, j) ==> j - i <= 63,
    {
        assert(c == text[count as int]);
        if count == 255 {
            return false;
        }
        if count == 0 && c == '-' {
            return false;
        }
        if !(c.is_alphanumeric() || c == '-' || c == '.') {
            return false;
        }
        if c == '.' {
            label = 0;
        } else {
            if label == 63 {
                proof {
                    assert(dot_free(text, count - 63, count + 1));
                }
                return false;
            }
            label = label + 1;
        }
        last = c;
        count = count + 1;
        proof {
            assert forall|i: int, j: int|
                0 <= i <= j <= count && #[trigger] dot_free(text, i, j) implies j - i <= 63 by {
                if j == count && i < j {
                    if c == '.' {
                        assert(text[count - 1] == '.');
                    } else if i < count - label {
                        assert(text[count - label - 1] == '.');
                    }
                } else if j < count {
                    assert(dot_free(text, i, j));
                }
            }
        }
    }
    count > 0 && last != '-'
}

/// The text is a host name that converts to Unicode.
pub open spec fn valid_idn_hostname(text: Seq<char>) -> bool {
    valid_hostname(text) && domain_to_unicode_succeeds(text)
}

/// Whether the text is a host name that converts to Unicode.
pub fn is_valid_idn_hostname(string: &str) -> (r: bool)
    ensures
        r == valid_idn_hostname(string@),
{
    is_valid_hostname(string) && converts_to_unicode(string)
}

/// The character `c` may stand at the place `at` of a date: a hyphen at the
/// fifth and the eighth place, a decimal digit at the others.
pub open spec fn date_character(at: int, c: char) -> bool {
    if at == 4 || at == 7 {
        c == '-'
    } else {
        '0' <= c && c <= '9'
    }
}

/// The text has the shape of a date: four digits for the year, two for the
/// month and two for the day, with a hyphen between them.
pub open spec fn date_shaped(text: Seq<char>) -> bool {
    &&& text.len() == 10
    &&& forall|i: int| 0 <= i < 10 ==> date_character(i, #[trigger] text[i])
}

/// Whether the text has the shape of a date.
pub fn is_date_shaped(string: &str) -> (r: bool)
    ensures
        r == date_shaped(string@),
{
    let ghost text = string@;
    let mut count: usize = 0;
    for c in it: string.chars()
        invariant
            it.seq() == text,
            text == string@,
            count == it.index(),
            count <= 10,
            forall|i: int| 0 <= i < count ==> date_character(i, #[trigger] text[i]),
    {
        assert(c == text[count as int]);
        if count == 10 {
            return false;
        }
        let fits = if count == 4 || count == 7 {
            c == '-'
        } else {
            c >= '0' && c <= '9'
        };
        if !fits {
            return false;
        }
        count = count + 1;
    }
    count == 10
}

/// The text is a date of the calendar, written as year, month and day with
/// four, two and two digits.
pub open spec fn valid_date(text: Seq<char>) -> bool {
    date_shaped(text) && date_parses(text, "%Y-%m-%d"@)
}

/// Whether the text is a date of the calendar in the fixed shape.
pub fn is_valid_date(string: &str) -> (r: bool)
    ensures
        r == valid_date(string@),
{
    is_date_shaped(string) && parses_as_date(string, "%Y-%m-%d")
}

/// The formats that the schema language names.
#[derive(Debug, Clone, Copy, PartialEq, Eq, Structural)]
pub enum BuiltinFormat {
    Date,
    DateTime,
    Email,
    Hostname,
    IdnEmail,
    IdnHostname,
    Iri,
    IriReference,
    JsonPointer,
    Regex,
    RelativeJsonPointer,
    Time,
    Uri,
    UriReference,
    UriTemplate,
}

/// The format of the given name.
pub open spec fn builtin_named(name: Seq<char>) -> Option<BuiltinFormat> {
    if name == "date"@ {
        Some(BuiltinFormat::Date)
    } else if name == "date-time"@ {
        Some(BuiltinFormat::DateTime)
    } else if name == "email"@ {
        Some(BuiltinFormat::Email)
    } else if name == "hostname"@ {
        Some(BuiltinFormat::Hostname)
    } else if name == "idn-email"@ {
        Some(BuiltinFormat::IdnEmail)
    } else if name == "idn-hostname"@ {
        Some(BuiltinFormat::IdnHostname)
    } else if name == "iri"@ {
        Some(BuiltinFormat::Iri)
    } else if name == "iri-reference"@ {
        Some(BuiltinFormat::IriReference)
    } else if name == "json-pointer"@ {
        Some(BuiltinFormat::JsonPointer)
    } else if name == "regex"@ {
        Some(BuiltinFormat::Regex)
    } else if name == "relative-json-pointer"@ {
        Some(BuiltinFormat::RelativeJsonPointer)
    } else if name == "time"@ {
        Some(BuiltinFormat::Time)
    } else if name == "uri"@ {
        Some(BuiltinFormat::Uri)
    } else if name == "uri-reference"@ {
        Some(BuiltinFormat::UriReference)
    } else if name == "uri-template"@ {
        Some(BuiltinFormat::UriTemplate)
    } else {
        None
    }
}

impl BuiltinFormat {
    /// The format of the given name.
    pub fn from_name(name: &str) -> (r: Option<BuiltinFormat>)
        ensures
            r == builtin_named(name@),
    {
        if str_eq(name, "date") {
            Some(BuiltinFormat::Date)
        } else if str_eq(name, "date-time") {
            Some(BuiltinFormat::DateTime)
        } else if str_eq(name, "email") {
            Some(BuiltinFormat::Email)
        } else if str_eq(name, "hostname") {
            Some(BuiltinFormat::Hostname)
        } else if str_eq(name, "idn-email") {
            Some(BuiltinFormat::IdnEmail)
        } else if str_eq(name, "idn-hostname") {
            Some(BuiltinFormat::IdnHostname)
        } else if str_eq(name, "iri") {
            Some(BuiltinFormat::Iri)
        } else if str_eq(name, "iri-reference") {
            Some(BuiltinFormat::IriReference)
        } else if str_eq(name, "json-pointer") {
            Some(BuiltinFormat::JsonPointer)
        } else if str_eq(name, "regex") {
            Some(BuiltinFormat::Regex)
        } else if str_eq(name, "relative-json-pointer") {
            Some(BuiltinFormat::RelativeJsonPointer)
        } else if str_eq(name, "time") {
            Some(BuiltinFormat::Time)
        } else if str_eq(name, "uri") {
            Some(BuiltinFormat::Uri)
        } else if str_eq(name, "uri-reference") {
            Some(BuiltinFormat::UriReference)
        } else if str_eq(name, "uri-template") {
            Some(BuiltinFormat::UriTemplate)
        } else {
            None
        }
    }

    /// The name of the format.
    pub open spec fn name_of(self) -> Seq<char> {
        match self {
            BuiltinFormat::Date => "date"@,
            BuiltinFormat::DateTime => "date-time"@,
            BuiltinFormat::Email => "email"@,
            BuiltinFormat::Hostname => "hostname"@,
            BuiltinFormat::IdnEmail => "idn-email"@,
            BuiltinFormat::IdnHostname => "idn-hostname"@,
            BuiltinFormat::Iri => "iri"@,
            BuiltinFormat::IriReference => "iri-reference"@,
            BuiltinFormat::JsonPointer => "json-pointer"@,
            BuiltinFormat::Regex => "regex"@,
            BuiltinFormat::RelativeJsonPointer => "relative-json-pointer"@,
            BuiltinFormat::Time => "time"@,
            BuiltinFormat::Uri => "uri"@,
            BuiltinFormat::UriReference => "uri-reference"@,
            BuiltinFormat::UriTemplate => "uri-template"@,
        }
    }

    /// The name of the format.
    pub fn name(self) -> (r: &'static str)
        ensures
            r@ == self.name_of(),
    {
        match self {
            BuiltinFormat::Date => "date",
            BuiltinFormat::DateTime => "date-time",
            BuiltinFormat::Email => "email",
            BuiltinFormat::Hostname => "hostname",
            BuiltinFormat::IdnEmail => "idn-email",
            BuiltinFormat::IdnHostname => "idn-hostname",
            BuiltinFormat::Iri => "iri",
            BuiltinFormat::IriReference => "iri-reference",
            BuiltinFormat::JsonPointer => "json-pointer",
            BuiltinFormat::Regex => "regex",
            BuiltinFormat::RelativeJsonPointer => "relative-json-pointer",
            BuiltinFormat::Time => "time",
            BuiltinFormat::Uri => "uri",
            BuiltinFormat::UriReference => "uri-reference",
            BuiltinFormat::UriTemplate => "uri-template",
        }
    }

    /// The first draft that knows the format.
    pub open spec fn first_draft(self) -> Draft {
        match self {
            BuiltinFormat::Date => Draft::Draft4,
            BuiltinFormat::DateTime => Draft::Draft4,
            BuiltinFormat::Email => Draft::Draft4,
            BuiltinFormat::Hostname => Draft::Draft4,
            BuiltinFormat::IdnEmail => Draft::Draft4,
            BuiltinFormat::IdnHostname => Draft::Draft7,
            BuiltinFormat::Iri => Draft::Draft7,
            BuiltinFormat::IriReference => Draft::Draft7,
            BuiltinFormat::JsonPointer => Draft::Draft6,
            BuiltinFormat::Regex => Draft::Draft4,
            BuiltinFormat::RelativeJsonPointer => Draft::Draft4,
            BuiltinFormat::Time => Draft::Draft4,
            BuiltinFormat::Uri => Draft::Draft4,
            BuiltinFormat::UriReference => Draft::Draft6,
            BuiltinFormat::UriTemplate => Draft::Draft6,
        }
    }

    /// The pattern that a text of the format has to match, for the formats
    /// that are given by a pattern.
    pub open spec fn pattern(self) -> Option<Seq<char>> {
        match self {
            BuiltinFormat::IriReference => Some(r"^(\w+:(/?/?))?[^#\\\s]*(#[^\\\s]*)?\z"@),
            BuiltinFormat::JsonPointer => Some(r"^(/(([^/~])|(~[01]))*)*\z"@),
            BuiltinFormat::RelativeJsonPointer => Some(r"^(?:0|[1-9][0-9]*)(?:#|(?:/(?:[^~/]|~0|~1)*)*)\z"@),
            BuiltinFormat::Time => Some(r"^([01][0-9]|2[0-3]):([0-5][0-9]):([0-5][0-9])(\.[0-9]{6})?(([Zz])|([+|\-]([01][0-9]|2[0-3]):[0-5][0-9]))\z"@),
            BuiltinFormat::UriReference => Some(r"^(\w+:(/?/?))?[^#\\\s]*(#[^\\\s]*)?\z"@),
            BuiltinFormat::UriTemplate => Some(r#"^(?:(?:[^\x00-\x20"'<>%\\^`{|}]|%[0-9a-f]{2})|\{[+#./;?&=,!@|]?(?:[a-z0-9_]|%[0-9a-f]{2})+(?::[1-9][0-9]{0,3}|\*)?(?:,(?:[a-z0-9_]|%[0-9a-f]{2})+(?::[1-9][0-9]{0,3}|\*)?)*})*\z"#@),
            _ => None,
        }
    }

    /// The pattern that a text of the format has to match, for the formats
    /// that are given by a pattern.
    pub fn pattern_text(self) -> (r: Option<&'static str>)
        ensures
            match r {
                Some(text) => self.pattern() == Some(text@),
                None => self.pattern() is None,
            },
    {
        match self {
            BuiltinFormat::IriReference => Some(r"^(\w+:(/?/?))?[^#\\\s]*(#[^\\\s]*)?\z"),
            BuiltinFormat::JsonPointer => Some(r"^(/(([^/~])|(~[01]))*)*\z"),
            BuiltinFormat::RelativeJsonPointer => Some(r"^(?:0|[1-9][0-9]*)(?:#|(?:/(?:[^~/]|~0|~1)*)*)\z"),
            BuiltinFormat::Time => Some(r"^([01][0-9]|2[0-3]):([0-5][0-9]):([0-5][0-9])(\.[0-9]{6})?(([Zz])|([+|\-]([01][0-9]|2[0-3]):[0-5][0-9]))\z"),
            BuiltinFormat::UriReference => Some(r"^(\w+:(/?/?))?[^#\\\s]*(#[^\\\s]*)?\z"),
            BuiltinFormat::UriTemplate => Some(r#"^(?:(?:[^\x00-\x20"'<>%\\^`{|}]|%[0-9a-f]{2})|\{[+#./;?&=,!@|]?(?:[a-z0-9_]|%[0-9a-f]{2})+(?::[1-9][0-9]{0,3}|\*)?(?:,(?:[a-z0-9_]|%[0-9a-f]{2})+(?::[1-9][0-9]{0,3}|\*)?)*})*\z"#),
            _ => None,
        }
    }

    /// Whether schemas of the given draft know the format.
    pub fn supported_for_draft(self, draft_version: Draft) -> (r: bool)
        ensures
            r == (draft_version.rank() >= self.first_draft().rank()),
    {
        let first = match self {
            BuiltinFormat::Date => Draft::Draft4,
            BuiltinFormat::DateTime => Draft::Draft4,
            BuiltinFormat::Email => Draft::Draft4,
            BuiltinFormat::Hostname => Draft::Draft4,
            BuiltinFormat::IdnEmail => Draft::Draft4,
            BuiltinFormat::IdnHostname => Draft::Draft7,
            BuiltinFormat::Iri => Draft::Draft7,
            BuiltinFormat::IriReference => Draft::Draft7,
            BuiltinFormat::JsonPointer => Draft::Draft6,
            BuiltinFormat::Regex => Draft::Draft4,
            BuiltinFormat::RelativeJsonPointer => Draft::Draft4,
            BuiltinFormat::Time => Draft::Draft4,
            BuiltinFormat::Uri => Draft::Draft4,
            BuiltinFormat::UriReference => Draft::Draft6,
            BuiltinFormat::UriTemplate => Draft::Draft6,
        };
        draft_version.at_least(first)
    }

    /// The texts of the format. Where the format is given by a pattern that
    /// cannot be compiled, every text is of the format.
    pub open spec fn accepts(self, text: Seq<char>) -> bool {
        match self {
            BuiltinFormat::Date => valid_date(text),
            BuiltinFormat::DateTime => rfc3339_parses(text),
            BuiltinFormat::Email | BuiltinFormat::IdnEmail => valid_email(text),
            BuiltinFormat::Hostname => valid_hostname(text),
            BuiltinFormat::IdnHostname => valid_idn_hostname(text),
            BuiltinFormat::Iri | BuiltinFormat::Uri => url_parses(text),
            BuiltinFormat::Regex => pattern_compiles(text),
            _ => match self.pattern() {
                Some(pattern) => pattern_compiles(pattern) ==> pattern_matches(pattern, text),
                None => true,
            },
        }
    }
}

/// Three of the formats are known from the seventh draft on and three from
/// the sixth. Every other format is known in every draft.
pub proof fn lemma_drafts_of_formats(format: BuiltinFormat, draft: Draft)
    ensures
        format == BuiltinFormat::IdnHostname || format == BuiltinFormat::Iri || format
            == BuiltinFormat::IriReference ==> (draft.rank() >= format.first_draft().rank()) == (
        draft == Draft::Draft7),
        format == BuiltinFormat::JsonPointer || format == BuiltinFormat::UriReference || format
            == BuiltinFormat::UriTemplate ==> (draft.rank() >= format.first_draft().rank()) == (
        draft != Draft::Draft4),
        !(format == BuiltinFormat::IdnHostname || format == BuiltinFormat::Iri || format
            == BuiltinFormat::IriReference || format == BuiltinFormat::JsonPointer || format
            == BuiltinFormat::UriReference || format == BuiltinFormat::UriTemplate)
            ==> draft.rank() >= format.first_draft().rank(),
{
}

/// The check of one of the named formats, ready for use.
pub struct StringFormat {
    format: BuiltinFormat,
    compiled: Option<Pattern>,
}

impl StringFormat {
    /// The compiled pattern is that of the format.
    #[verifier::type_invariant]
    pub closed spec fn wf(&self) -> bool {
        match self.compiled {
            Some(pattern) => self.format.pattern() == Some(pattern.source()) && pattern_compiles(
                pattern.source(),
            ),
            None => self.format.pattern() matches Some(pattern) ==> !pattern_compiles(pattern),
        }
    }

    /// The format that is checked.
    pub closed spec fn format(&self) -> BuiltinFormat {
        self.format
    }

    /// The check of the given format.
    pub fn new(format: BuiltinFormat) -> (r: StringFormat)
        ensures
            r.format() == format,
    {
        let compiled = match format.pattern_text() {
            Some(text) => Pattern::compile(text),
            None => None,
        };
        StringFormat { format, compiled }
    }
}

impl FormatValidator for StringFormat {
    open spec fn accepts_array(&self, items: Seq<Value>) -> bool {
        true
    }

    open spec fn accepts_boolean(&self, value: bool) -> bool {
        true
    }

    open spec fn accepts_null(&self) -> bool {
        true
    }

    open spec fn accepts_number(&self, value: PerfectPrecisionNumber) -> bool {
        true
    }

    open spec fn accepts_object(&self, value: Object) -> bool {
        true
    }

    open spec fn accepts_string(&self, value: Seq<char>) -> bool {
        self.format().accepts(value)
    }

    open spec fn supports(&self, draft: Draft) -> bool {
        draft.rank() >= self.format().first_draft().rank()
    }

    /// The name of the format that is checked.
    open spec fn name(&self) -> Seq<char> {
        self.format().name_of()
    }

    fn supported_for_draft(&self, draft_version: Draft) -> (r: bool) {
        self.format.supported_for_draft(draft_version)
    }

    fn format_name(&self) -> (r: &'static str) {
        self.format.name()
    }

    fn check_array(&self, items: &[Value]) -> (r: bool) {
        true
    }

    fn check_boolean(&self, value: bool) -> (r: bool) {
        true
    }

    fn check_null(&self) -> (r: bool) {
        true
    }

    fn check_number(&self, value: &PerfectPrecisionNumber) -> (r: bool) {
        true
    }

    fn check_object(&self, value: &Object) -> (r: bool) {
        true
    }

    fn check_string(&self, value: &str) -> (r: bool) {
        proof {
            use_type_invariant(self);
        }
        match self.format {
            BuiltinFormat::Date => is_valid_date(value),
            BuiltinFormat::DateTime => parses_as_rfc3339(value),
            BuiltinFormat::Email | BuiltinFormat::IdnEmail => is_valid_email(value),
            BuiltinFormat::Hostname => is_valid_hostname(value),
            BuiltinFormat::IdnHostname => is_valid_idn_hostname(value),
            BuiltinFormat::Iri | BuiltinFormat::Uri => parses_as_url(value),
            BuiltinFormat::Regex => Pattern::compile(value).is_some(),
            _ => match &self.compiled {
                Some(pattern) => pattern.is_match(value),
                None => true,
            },
        }
    }
}

} // verus!
