pub mod dictionary_schema;
pub mod unidic;
