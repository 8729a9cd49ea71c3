use jsonschema::format::{FormatKeyword, FormatValidator};
use jsonschema::format_keyword::{self, FormatRegistry};
use jsonschema::jsonschema_formats::{
    is_date_shaped, is_valid_date, is_valid_email, is_valid_hostname, is_valid_idn_hostname,
    BuiltinFormat, StringFormat,
};
use jsonschema::minimum::{self, MinimumI64Validator, MinimumU64Validator};
use jsonschema::multiple_of;
use jsonschema::perfect_precision_number::PerfectPrecisionNumber;
use jsonschema::unique_items::{self, is_unique, values_equal, HashedValue, UniqueItemsValidator};
use jsonschema::validator::{CompilationError, Draft, Validate};
use jsonschema::value::{Object, Value};

fn number(text: &str) -> Value {
    Value::Number(PerfectPrecisionNumber::from_str(text).unwrap())
}

fn text(s: &str) -> Value {
    Value::String(s.to_string())
}

fn object(entries: Vec<(&str, Value)>) -> Value {
    let mut o = Object::new();
    for (k, v) in entries {
        o.insert(k.to_string(), v);
    }
    Value::Object(o)
}

#[test]
fn minimum_of_five() {
    let validator = minimum::compile(&number("5")).unwrap().unwrap();
    assert!(validator.is_valid(&number("5")));
    assert!(!validator.is_valid(&number("4.999999999999999")));
    assert!(validator.is_valid(&text("5")));
    assert!(validator.is_valid(&number("5.0")));
    assert!(validator.is_valid(&number("10")));
    assert!(validator.is_valid(&Value::Null));
    assert!(validator.is_valid(&Value::Bool(false)));
    assert!(validator.is_valid(&Value::Array(vec![number("1")])));
    assert!(validator.is_valid_signed_integer(5));
    assert!(!validator.is_valid_signed_integer(-5));
    assert!(validator.is_valid_unsigned_integer(u64::MAX));
    assert!(!validator.is_valid_unsigned_integer(4));
}

#[test]
fn minimum_beyond_the_reach_of_floats() {
    let validator = minimum::compile(&number("18014398509481984")).unwrap().unwrap();
    assert!(!validator.is_valid(&number("18014398509481983")));
    assert!(validator.is_valid(&number("18014398509481984")));
}

#[test]
fn minimum_wants_a_number() {
    assert_eq!(minimum::compile(&text("5")).unwrap().unwrap_err(), CompilationError::SchemaError);
    assert_eq!(
        multiple_of::compile(&Value::Null).unwrap().unwrap_err(),
        CompilationError::SchemaError
    );
}

#[test]
fn minimum_reports_what_failed() {
    let validator = minimum::compile(&number("5")).unwrap().unwrap();
    let low = number("4");
    let errors = validator.validate(&low);
    assert_eq!(errors.len(), 1);
    assert_eq!(errors[0].keyword, "minimum");
    assert_eq!(errors[0].description, "minimum: 5");
    assert!(std::ptr::eq(errors[0].instance, &low));
    assert!(validator.validate(&number("7")).is_empty());
    assert!(validator.validate(&text("x")).is_empty());
}

#[test]
fn minimum_on_machine_words() {
    let unsigned = MinimumU64Validator { limit: 1u64 << 54 };
    assert!(!unsigned.is_valid_unsigned_integer((1u64 << 54) - 1));
    assert!(unsigned.is_valid_unsigned_integer(1u64 << 54));
    assert!(!unsigned.is_valid_signed_integer(-1));
    assert!(!unsigned.is_valid_signed_integer((1i64 << 54) - 1));
    assert!(unsigned.is_valid_signed_integer(1i64 << 54));
    let signed = MinimumI64Validator { limit: -3 };
    assert!(signed.is_valid_unsigned_integer(0));
    assert!(signed.is_valid_signed_integer(-3));
    assert!(!signed.is_valid_signed_integer(-4));
    let high = MinimumI64Validator { limit: 1i64 << 54 };
    assert!(!high.is_valid_signed_integer((1i64 << 54) - 1));
    assert!(!high.is_valid_unsigned_integer(5));
    assert!(high.is_valid_unsigned_integer(u64::MAX));
}

#[test]
fn multiple_of_a_hundredth() {
    let validator = multiple_of::compile(&number("0.01")).unwrap().unwrap();
    assert!(validator.is_valid(&number("19.99")));
    assert!(!validator.is_valid(&number("19.999")));
    assert!(validator.is_valid(&text("19.999")));
    assert!(validator.is_valid_signed_integer(-3));
    assert_eq!(validator.validate(&number("0.005")).len(), 1);
    assert_eq!(validator.validate(&number("0.005"))[0].keyword, "multipleOf");
    assert_eq!(validator.validate(&number("0.005"))[0].description, "multipleOf: 0.01");
}

#[test]
fn unique_items() {
    let validator = unique_items::compile(&Value::Bool(true)).unwrap().unwrap();
    assert!(!validator.is_valid(&Value::Array(vec![number("1"), number("1.0")])));
    assert!(validator.is_valid(&Value::Array(vec![number("1"), number("2"), number("3")])));
    let a = object(vec![("a", number("1")), ("b", number("2"))]);
    let b = object(vec![("b", number("2")), ("a", number("1"))]);
    assert!(!validator.is_valid(&Value::Array(vec![a, b])));
    let x = Value::Array(vec![number("1"), number("2")]);
    let y = Value::Array(vec![number("2"), number("1")]);
    assert!(validator.is_valid(&Value::Array(vec![x, y])));
    assert!(validator.is_valid(&Value::Array(vec![])));
    assert!(validator.is_valid(&text("aa")));
    assert!(validator.is_valid(&Value::Array(vec![Value::Null, Value::Bool(false), text(""), number("0")])));
    assert!(!validator.is_valid(&Value::Array(vec![Value::Null, text("a"), Value::Null])));
    assert!(!validator.is_valid(&Value::Array(vec![
        Value::Array(vec![number("1")]),
        Value::Array(vec![number("1.0")]),
    ])));
    assert_eq!(validator.validate(&Value::Array(vec![text("a"), text("a")]))[0].keyword, "uniqueItems");
    assert_eq!(
        validator.validate(&Value::Array(vec![text("a"), text("a")]))[0].description,
        "uniqueItems: true"
    );
}

#[test]
fn unique_items_compiles_only_for_true() {
    assert!(unique_items::compile(&Value::Bool(false)).is_none());
    assert!(unique_items::compile(&number("1")).is_none());
    assert!(UniqueItemsValidator::compile().is_ok());
    assert!(is_unique(&[text("a"), text("b")]));
    assert!(!is_unique(&[text("a"), text("b"), text("a")]));
}

#[test]
fn equal_values_have_equal_hashes() {
    let pairs = vec![
        (number("1"), number("1.0")),
        (number("-0.50"), number("-.5")),
        (
            object(vec![("a", number("1")), ("b", text("x")), ("c", Value::Null)]),
            object(vec![("c", Value::Null), ("a", number("1.00")), ("b", text("x"))]),
        ),
        (
            Value::Array(vec![object(vec![("k", number("2"))]), Value::Bool(true)]),
            Value::Array(vec![object(vec![("k", number("2.0"))]), Value::Bool(true)]),
        ),
    ];
    for (a, b) in pairs.iter() {
        assert!(values_equal(a, b));
        assert!(HashedValue(a) == HashedValue(b));
        assert_eq!(HashedValue(a).hash(), HashedValue(b).hash());
    }
    assert_ne!(HashedValue(&number("1")).hash(), HashedValue(&number("2")).hash());
    assert_ne!(HashedValue(&text("1")).hash(), HashedValue(&Value::Null).hash());
    assert!(!values_equal(&number("1"), &text("1")));
    assert!(!values_equal(
        &object(vec![("a", number("1"))]),
        &object(vec![("a", number("1")), ("b", number("1"))])
    ));
    assert!(!values_equal(
        &object(vec![("a", number("1"))]),
        &object(vec![("b", number("1"))])
    ));
}

#[test]
fn objects_keep_one_value_for_each_key() {
    let mut o = Object::new();
    o.insert("a".to_string(), number("1"));
    o.insert("b".to_string(), number("2"));
    o.insert("a".to_string(), number("3"));
    assert_eq!(o.len(), 2);
    assert!(values_equal(o.get("a").unwrap(), &number("3")));
    assert!(o.get("c").is_none());
    assert_eq!(o.position("b"), Some(1));
}

#[test]
fn ignored_format() {
    let registry: FormatRegistry<StringFormat> = FormatRegistry::new();
    let schema = text("custom");
    let instance = text("foo");
    let compiled = format_keyword::compile(&schema, &registry, Draft::Draft7);
    assert!(compiled.is_none());
    let valid = match compiled {
        Some(Ok(validator)) => validator.is_valid(&instance),
        Some(Err(_)) => false,
        None => true,
    };
    assert!(valid)
}

#[test]
fn unknown_formats_constrain_nothing() {
    let registry: FormatRegistry<StringFormat> = FormatRegistry::new();
    for draft in [Draft::Draft4, Draft::Draft6, Draft::Draft7] {
        assert!(format_keyword::compile(&text("no-such-format"), &registry, draft).is_none());
    }
    assert!(matches!(
        format_keyword::compile(&number("1"), &registry, Draft::Draft7),
        Some(Err(CompilationError::SchemaError))
    ));
}

#[test]
fn iri_is_known_from_the_seventh_draft() {
    let registry: FormatRegistry<StringFormat> = FormatRegistry::new();
    assert!(format_keyword::compile(&text("iri"), &registry, Draft::Draft4).is_none());
    assert!(format_keyword::compile(&text("iri"), &registry, Draft::Draft6).is_none());
    let validator = format_keyword::compile(&text("iri"), &registry, Draft::Draft7).unwrap().unwrap();
    assert!(!validator.is_valid(&text("not an iri")));
    assert!(validator.is_valid(&text("https://example.com/a?b=c")));
    assert!(validator.is_valid(&number("1")));
    assert_eq!(validator.validate(&text("::"))[0].keyword, "format");
    assert_eq!(validator.validate(&text("::"))[0].description, "format: iri");
}

#[test]
fn draft_gates() {
    let registry: FormatRegistry<StringFormat> = FormatRegistry::new();
    for name in ["json-pointer", "uri-reference", "uri-template"] {
        assert!(format_keyword::compile(&text(name), &registry, Draft::Draft4).is_none());
        assert!(format_keyword::compile(&text(name), &registry, Draft::Draft6).is_some());
    }
    for name in ["idn-hostname", "iri", "iri-reference"] {
        assert!(format_keyword::compile(&text(name), &registry, Draft::Draft6).is_none());
        assert!(format_keyword::compile(&text(name), &registry, Draft::Draft7).is_some());
    }
    for name in [
        "date",
        "date-time",
        "email",
        "hostname",
        "idn-email",
        "regex",
        "relative-json-pointer",
        "time",
        "uri",
    ] {
        for draft in [Draft::Draft4, Draft::Draft6, Draft::Draft7] {
            assert!(format_keyword::compile(&text(name), &registry, draft).is_some());
        }
    }
    assert!(Draft::Draft7.at_least(Draft::Draft6));
    assert!(!Draft::Draft4.at_least(Draft::Draft6));
    assert!(Draft::Draft6.at_least(Draft::Draft6));
}

#[test]
fn registered_formats_go_first() {
    let mut registry: FormatRegistry<StringFormat> = FormatRegistry::new();
    registry.register("email".to_string(), StringFormat::new(BuiltinFormat::Hostname));
    registry.register("mine".to_string(), StringFormat::new(BuiltinFormat::IdnHostname));
    let validator =
        format_keyword::compile(&text("email"), &registry, Draft::Draft4).unwrap().unwrap();
    assert!(validator.is_valid(&text("example.com")));
    assert!(!validator.is_valid(&text("a@example.com")));
    assert!(format_keyword::compile(&text("mine"), &registry, Draft::Draft6).is_none());
    assert!(format_keyword::compile(&text("mine"), &registry, Draft::Draft7).is_some());
}

#[test]
fn relative_pointers_in_every_draft() {
    let registry: FormatRegistry<StringFormat> = FormatRegistry::new();
    for draft in [Draft::Draft4, Draft::Draft6, Draft::Draft7] {
        assert!(BuiltinFormat::RelativeJsonPointer.supported_for_draft(draft));
        assert!(StringFormat::new(BuiltinFormat::RelativeJsonPointer).supported_for_draft(draft));
        let validator = format_keyword::compile(&text("relative-json-pointer"), &registry, draft)
            .unwrap()
            .unwrap();
        assert!(validator.is_valid(&text("1/a")));
        assert!(!validator.is_valid(&text("/a")));
    }
}

fn check(format: BuiltinFormat, s: &str) -> bool {
    FormatKeyword(StringFormat::new(format)).is_valid(&text(s))
}

#[test]
fn format_checks() {
    assert!(check(BuiltinFormat::Date, "2020-02-29"));
    assert!(!check(BuiltinFormat::Date, "2021-02-29"));
    assert!(!check(BuiltinFormat::Date, "02/29/2020"));
    assert!(check(BuiltinFormat::Date, "0001-01-01"));
    assert!(!check(BuiltinFormat::Date, "2020-2-9"));
    assert!(!check(BuiltinFormat::Date, "2020-02-9"));
    assert!(!check(BuiltinFormat::Date, "2020-2-09"));
    assert!(!check(BuiltinFormat::Date, "020-02-029"));
    assert!(!check(BuiltinFormat::Date, " 2020-02-29"));
    assert!(!check(BuiltinFormat::Date, "2020-02-29 "));
    assert!(!check(BuiltinFormat::Date, "+2020-02-29"));
    assert!(!check(BuiltinFormat::Date, "02020-02-29"));
    assert!(!check(BuiltinFormat::Date, "2020-13-01"));
    assert!(!check(BuiltinFormat::Date, "2020/02/29"));
    assert!(!check(BuiltinFormat::Date, ""));
    assert!(check(BuiltinFormat::DateTime, "2020-01-01T10:00:00Z"));
    assert!(check(BuiltinFormat::DateTime, "2020-01-01T10:00:00+02:00"));
    assert!(!check(BuiltinFormat::DateTime, "2020-01-01 10:00"));
    assert!(check(BuiltinFormat::Email, "a@b"));
    assert!(!check(BuiltinFormat::IdnEmail, "ab"));
    assert!(check(BuiltinFormat::Regex, "^a+$"));
    assert!(!check(BuiltinFormat::Regex, "(a"));
    assert!(check(BuiltinFormat::Time, "12:30:45Z"));
    assert!(check(BuiltinFormat::Time, "12:30:45.123456+01:00"));
    assert!(!check(BuiltinFormat::Time, "25:30:45Z"));
    assert!(check(BuiltinFormat::Uri, "http://example.com"));
    assert!(!check(BuiltinFormat::Uri, "//example.com"));
    assert!(check(BuiltinFormat::UriReference, "/a/b#c"));
    assert!(!check(BuiltinFormat::UriReference, "a b"));
    assert!(check(BuiltinFormat::IriReference, "/a/b#c"));
    assert!(check(BuiltinFormat::JsonPointer, "/a/~0b/~1c"));
    assert!(!check(BuiltinFormat::JsonPointer, "/a/~2"));
    assert!(check(BuiltinFormat::RelativeJsonPointer, "0#"));
    assert!(check(BuiltinFormat::RelativeJsonPointer, "12/a"));
    assert!(!check(BuiltinFormat::RelativeJsonPointer, "01/a"));
    assert!(check(BuiltinFormat::UriTemplate, "http://a/{b}"));
    assert!(!check(BuiltinFormat::UriTemplate, "http://a/{b"));
    assert!(check(BuiltinFormat::Hostname, "example.com"));
    assert!(check(BuiltinFormat::IdnHostname, "example.com"));
}

#[test]
fn dates_have_a_fixed_shape() {
    assert!(is_date_shaped("2020-02-29"));
    assert!(is_date_shaped("9999-99-99"));
    assert!(is_date_shaped("0000-00-00"));
    assert!(!is_date_shaped("2020-02-2"));
    assert!(!is_date_shaped("2020-02-290"));
    assert!(!is_date_shaped("2020 02 29"));
    assert!(!is_date_shaped("2020-02_29"));
    assert!(!is_date_shaped("20200-2-29"));
    assert!(!is_date_shaped("2020--2-29"));
    assert!(!is_date_shaped("\u{ff12}020-02-29"));
    assert!(!is_date_shaped(""));
    assert!(is_valid_date("2024-12-31"));
    assert!(!is_valid_date("9999-99-99"));
    assert!(!is_valid_date("2024-00-10"));
    assert!(!is_valid_date("2024-1-1"));
}

#[test]
fn hostnames() {
    assert!(is_valid_hostname("example.com"));
    assert!(is_valid_hostname("a-b.c"));
    assert!(!is_valid_hostname(""));
    assert!(!is_valid_hostname("-a.com"));
    assert!(!is_valid_hostname("a.com-"));
    assert!(!is_valid_hostname("a_b.com"));
    assert!(!is_valid_hostname("a b"));
    let label63 = "a".repeat(63);
    let label64 = "a".repeat(64);
    assert!(is_valid_hostname(&label63));
    assert!(!is_valid_hostname(&label64));
    assert!(is_valid_hostname(&format!("{}.{}", label63, label63)));
    let long = vec!["abcdefg"; 32].join(".");
    assert_eq!(long.chars().count(), 255);
    assert!(is_valid_hostname(&long));
    assert!(!is_valid_hostname(&format!("{}a", long)));
    assert!(is_valid_hostname("bücher.de"));
    assert!(is_valid_idn_hostname("bücher.de"));
    assert!(!is_valid_idn_hostname("-a"));
    assert!(!is_valid_idn_hostname("xn--a.com"));
}

#[test]
fn emails() {
    assert!(is_valid_email("a@b"));
    assert!(is_valid_email("@"));
    assert!(!is_valid_email(""));
    assert!(!is_valid_email("a.b"));
}

#[test]
fn values_as_numbers() {
    assert!(number("1.5").as_number().unwrap() == PerfectPrecisionNumber::from_str("1.50").unwrap());
    assert_eq!(
        text("1.5").as_number().unwrap_err(),
        jsonschema::perfect_precision_number::PerfectPrecisionNumberError::Invalid(
            "value is not a number"
        )
    );
}

#[test]
fn names_of_validators() {
    let at_least = minimum::compile(&number("5.50")).unwrap().unwrap();
    assert_eq!(at_least.name(), "minimum: 5.5");
    let steps = multiple_of::compile(&number("-0.01")).unwrap().unwrap();
    assert_eq!(steps.name(), "multipleOf: -0.01");
    assert_eq!(UniqueItemsValidator::compile().unwrap().name(), "uniqueItems: true");
    assert_eq!(StringFormat::new(BuiltinFormat::DateTime).default_to_string(), "format: date-time");
    assert_eq!(StringFormat::new(BuiltinFormat::Iri).format_name(), "iri");
    assert!(!StringFormat::new(BuiltinFormat::Iri).supported_for_draft(Draft::Draft6));
}

#[test]
fn doubles_are_checked_exactly() {
    let at_least = minimum::compile(&number("5")).unwrap().unwrap();
    assert!(at_least.is_valid_number(5.0f64.to_bits()));
    assert!(!at_least.is_valid_number(4.999999999999999f64.to_bits()));
    let steps = multiple_of::compile(&number("0.25")).unwrap().unwrap();
    assert!(steps.is_valid_number(1.75f64.to_bits()));
    assert!(!steps.is_valid_number(1.7f64.to_bits()));
}
