pub mod comparison;
pub mod digits;
pub mod format;
pub mod format_keyword;
pub mod jsonschema_formats;
pub mod minimum;
pub mod multiple_of;
pub mod perfect_precision_number;
pub mod unique_items;
pub mod validator;
pub mod value;
