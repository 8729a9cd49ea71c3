//! Compiling the `format` keyword: the name is looked up among the formats
//! that the caller has registered and then among the named ones.
use crate::format::{FormatKeyword, FormatValidator};
use crate::jsonschema_formats::{builtin_named, url_parses, BuiltinFormat, StringFormat};
use crate::perfect_precision_number::PerfectPrecisionNumber;
use crate::validator::{CompilationError, Draft};
use crate::value::{str_eq, Object, Value};
use vstd::prelude::*;

verus! {

/// The format that a name stands for: one of the named formats, or one that
/// the caller has registered.
pub enum Format<'a, C: FormatValidator> {
    Builtin(StringFormat),
    Custom(&'a C),
}

impl<'a, C: FormatValidator> FormatValidator for Format<'a, C> {
    open spec fn accepts_array(&self, items: Seq<Value>) -> bool {
        match self {
            Format::Builtin(format) => format.accepts_array(items),
            Format::Custom(format) => format.accepts_array(items),
        }
    }

    open spec fn accepts_boolean(&self, value: bool) -> bool {
        match self {
            Format::Builtin(format) => format.accepts_boolean(value),
            Format::Custom(format) => format.accepts_boolean(value),
        }
    }

    open spec fn accepts_null(&self) -> bool {
        match self {
            Format::Builtin(format) => format.accepts_null(),
            Format::Custom(format) => format.accepts_null(),
        }
    }

    open spec fn accepts_number(&self, value: PerfectPrecisionNumber) -> bool {
        match self {
            Format::Builtin(format) => format.accepts_number(value),
            Format::Custom(format) => format.accepts_number(value),
        }
    }

    open spec fn accepts_object(&self, value: Object) -> bool {
        match self {
            Format::Builtin(format) => format.accepts_object(value),
            Format::Custom(format) => format.accepts_object(value),
        }
    }

    open spec fn accepts_string(&self, value: Seq<char>) -> bool {
        match self {
            Format::Builtin(format) => format.accepts_string(value),
            Format::Custom(format) => format.accepts_string(value),
        }
    }

    open spec fn supports(&self, draft: Draft) -> bool {
        match self {
            Format::Builtin(format) => format.supports(draft),
            Format::Custom(format) => format.supports(draft),
        }
    }

    open spec fn name(&self) -> Seq<char> {
        match self {
            Format::Builtin(format) => format.name(),
            Format::Custom(format) => format.name(),
        }
    }

    fn supported_for_draft(&self, draft_version: Draft) -> (r: bool) {
        match self {
            Format::Builtin(format) => format.supported_for_draft(draft_version),
            Format::Custom(format) => format.supported_for_draft(draft_version),
        }
    }

    fn format_name(&self) -> (r: &'static str) {
        match self {
            Format::Builtin(format) => format.format_name(),
            Format::Custom(format) => format.format_name(),
        }
    }

    fn check_array(&self, items: &[Value]) -> (r: bool) {
        match self {
            Format::Builtin(format) => format.check_array(items),
            Format::Custom(format) => format.check_array(items),
        }
    }

    fn check_boolean(&self, value: bool) -> (r: bool) {
        match self {
            Format::Builtin(format) => format.check_boolean(value),
            Format::Custom(format) => format.check_boolean(value),
        }
    }

    fn check_null(&self) -> (r: bool) {
        match self {
            Format::Builtin(format) => format.check_null(),
            Format::Custom(format) => format.check_null(),
        }
    }

    fn check_number(&self, value: &PerfectPrecisionNumber) -> (r: bool) {
        match self {
            Format::Builtin(format) => format.check_number(value),
            Format::Custom(format) => format.check_number(value),
        }
    }

    fn check_object(&self, value: &Object) -> (r: bool) {
        match self {
            Format::Builtin(format) => format.check_object(value),
            Format::Custom(format) => format.check_object(value),
        }
    }

    fn check_string(&self, value: &str) -> (r: bool) {
        match self {
            Format::Builtin(format) => format.check_string(value),
            Format::Custom(format) => format.check_string(value),
        }
    }
}

/// The place of the last entry of the given name, if there is one.
pub open spec fn last_named<C>(entries: Seq<(String, C)>, name: Seq<char>) -> Option<int>
    decreases entries.len(),
{
    if entries.len() == 0 {
        None
    } else if entries.last().0@ == name {
        Some(entries.len() - 1)
    } else {
        last_named(entries.drop_last(), name)
    }
}

/// What a name stands for in a draft, given the registered formats.
pub enum Choice {
    /// The name constrains nothing.
    Nothing,
    /// The registered format at this place.
    Registered(int),
    /// The named format.
    Named(BuiltinFormat),
}

/// What the name stands for. A registered format goes before a named one of
/// the same name, and the format registered last before the others. A
/// format that the draft does not know stands for nothing.
pub open spec fn choice<C: FormatValidator>(
    entries: Seq<(String, C)>,
    name: Seq<char>,
    draft: Draft,
) -> Choice {
    match last_named(entries, name) {
        Some(i) => if entries[i].1.supports(draft) {
            Choice::Registered(i)
        } else {
            Choice::Nothing
        },
        None => match builtin_named(name) {
            Some(format) => if draft.rank() >= format.first_draft().rank() {
                Choice::Named(format)
            } else {
                Choice::Nothing
            },
            None => Choice::Nothing,
        },
    }
}

/// The formats that a schema may name, beyond those that the schema language
/// names itself.
pub struct FormatRegistry<C: FormatValidator> {
    pub custom: Vec<(String, C)>,
}

impl<C: FormatValidator> FormatRegistry<C> {
    /// The registry without formats of the caller's own.
    pub fn new() -> (r: Self)
        ensures
            r.custom@.len() == 0,
    {
        FormatRegistry { custom: Vec::new() }
    }

    /// Registers a format under a name. It goes before a format of the same
    /// name that was there before.
    pub fn register(&mut self, name: String, format: C)
        ensures
            final(self).custom@ == old(self).custom@.push((name, format)),
    {
        self.custom.push((name, format));
    }

    /// The format that the name stands for in the given draft.
    pub fn lookup(&self, name: &str, draft: Draft) -> (r: Option<Format<'_, C>>)
        ensures
            match choice(self.custom@, name@, draft) {
                Choice::Nothing => r is None,
                Choice::Registered(i) => r matches Some(Format::Custom(format)) && *format
                    == self.custom@[i].1,
                Choice::Named(named) => r matches Some(Format::Builtin(format)) && format.format()
                    == named,
            },
    {
        let mut i: usize = self.custom.len();
        assert(self.custom@.subrange(0, i as int) =~= self.custom@);
        while i > 0
            invariant
                i <= self.custom@.len(),
                last_named(self.custom@, name@) == last_named(
                    self.custom@.subrange(0, i as int),
                    name@,
                ),
            decreases i,
        {
            let ghost front = self.custom@.subrange(0, i as int);
            assert(front.drop_last() =~= self.custom@.subrange(0, i - 1));
            assert(front.last() == self.custom@[i - 1]);
            i -= 1;
            if str_eq(self.custom[i].0.as_str(), name) {
                let format = &self.custom[i].1;
                return if format.supported_for_draft(draft) {
                    Some(Format::Custom(format))
                } else {
                    None
                };
            }
        }
        match BuiltinFormat::from_name(name) {
            Some(format) => if format.supported_for_draft(draft) {
                Some(Format::Builtin(StringFormat::new(format)))
            } else {
                None
            },
            None => None,
        }
    }
}

/// Compiles the value of a `format` keyword. The value has to be a text, the
/// name of a format. A name that stands for nothing compiles to nothing: it
/// is no error, and the keyword then constrains no instance.
pub fn compile<'a, C: FormatValidator>(
    schema: &Value,
    registry: &'a FormatRegistry<C>,
    draft: Draft,
) -> (r: Option<Result<FormatKeyword<Format<'a, C>>, CompilationError>>)
    ensures
        match *schema {
            Value::String(name) => match choice(registry.custom@, name@, draft) {
                Choice::Nothing => r is None,
                Choice::Registered(i) => r matches Some(Ok(FormatKeyword(Format::Custom(format))))
                    && *format == registry.custom@[i].1,
                Choice::Named(named) => r matches Some(Ok(FormatKeyword(Format::Builtin(format))))
                    && format.format() == named,
            },
            _ => r matches Some(Err(CompilationError::SchemaError)),
        },
{
    if let Value::String(format) = schema {
        match registry.lookup(format.as_str(), draft) {
            Some(handler) => Some(Ok(FormatKeyword(handler))),
            None => None,
        }
    } else {
        Some(Err(CompilationError::SchemaError))
    }
}

/// A name that is neither registered nor among the named formats stands for
/// nothing, in every draft: such a `format` constrains no instance.
pub proof fn lemma_unknown_format_is_ignored<C: FormatValidator>(
    entries: Seq<(String, C)>,
    name: Seq<char>,
    draft: Draft,
)
    requires
        last_named(entries, name) is None,
        builtin_named(name) is None,
    ensures
        choice(entries, name, draft) is Nothing,
{
}

/// A named format stands for nothing in the drafts before the first that
/// knows it, and for itself from that draft on, unless the name is
/// registered.
pub proof fn lemma_format_is_gated_by_draft<C: FormatValidator>(
    entries: Seq<(String, C)>,
    name: Seq<char>,
    draft: Draft,
)
    requires
        last_named(entries, name) is None,
        builtin_named(name) is Some,
    ensures
        draft.rank() < builtin_named(name).unwrap().first_draft().rank() ==> choice(
            entries,
            name,
            draft,
        ) is Nothing,
        draft.rank() >= builtin_named(name).unwrap().first_draft().rank() ==> choice(
            entries,
            name,
            draft,
        ) == Choice::Named(builtin_named(name).unwrap()),
{
}

/// `iri` is known from the seventh draft on, and its texts are those that
/// parse as a URL.
pub proof fn lemma_iri_format()
    ensures
        builtin_named("iri"@) == Some(BuiltinFormat::Iri),
        BuiltinFormat::Iri.first_draft() == Draft::Draft7,
        forall|text: Seq<char>| #[trigger] BuiltinFormat::Iri.accepts(text) == url_parses(text),
{
    reveal_strlit("iri");
    reveal_strlit("date");
    reveal_strlit("date-time");
    reveal_strlit("email");
    reveal_strlit("hostname");
    reveal_strlit("idn-email");
    reveal_strlit("idn-hostname");
    assert("iri"@.len() == 3);
}

} // verus!
