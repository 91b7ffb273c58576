//! A small JSON engine: a byte-level recursive-descent parser that turns text
//! into an in-memory value model, and a serializer that renders typed data as
//! compact JSON text.

pub mod value;
pub mod text;
pub mod num;
pub mod parse;
pub mod ser;
pub mod laws;

pub use value::JsonValue;
pub use value::Location;
pub use value::Error;
pub use value::ErrorKind;
pub use value::insert_entry;
pub use value::value_eq;
pub use parse::JsonParser;
pub use parse::parse;
pub use parse::parse_bytes;
pub use ser::ToJson;
pub use ser::json_array_text;
pub use ser::json_object_text;
pub use ser::json_string_text;
