//! Dictionary metadata: name, encoding, defaults for simple user
//! dictionaries, build options and schemas.
use vstd::prelude::*;

use crate::dictionary::context_id_map::ContextIdMap;
use crate::dictionary::schema::Schema;
use crate::error::{error_of, LinderaErrorKind};
use crate::text::concat_str;
use crate::LinderaResult;

verus! {

/// Word cost of an entry of a simple user dictionary.
pub const DEFAULT_WORD_COST: i16 = -10000;

/// Left context id of an entry of a simple user dictionary.
pub const DEFAULT_LEFT_CONTEXT_ID: u16 = 1288;

/// Right context id of an entry of a simple user dictionary.
pub const DEFAULT_RIGHT_CONTEXT_ID: u16 = 1288;

/// The on-disk format version this library reads and writes.
pub const DICTIONARY_FORMAT_VERSION: u32 = 1;

/// The format version of dictionaries whose metadata predates the field.
pub const LEGACY_FORMAT_VERSION: u32 = 1;

/// The format version assumed when metadata does not record one.
pub fn legacy_format_version() -> (r: u32)
    ensures
        r == LEGACY_FORMAT_VERSION,
{
    LEGACY_FORMAT_VERSION
}

/// The metadata of a dictionary.
#[derive(Debug, Clone)]
pub struct Metadata {
    /// The format version the dictionary was written in.
    pub format_version: u32,
    /// The dictionary's name.
    pub name: String,
    /// The character encoding of its sources.
    pub encoding: String,
    /// Word cost for simple user dictionary entries.
    pub default_word_cost: i16,
    /// Left context id for simple user dictionary entries.
    pub default_left_context_id: u16,
    /// Right context id for simple user dictionary entries.
    pub default_right_context_id: u16,
    /// Value of the fields a simple user dictionary entry lacks.
    pub default_field_value: String,
    /// Whether CSV columns are handled flexibly.
    pub flexible_csv: bool,
    /// Whether rows with an invalid cost or id are skipped.
    pub skip_invalid_cost_or_id: bool,
    /// Whether characters are normalized.
    pub normalize_details: bool,
    /// Whether context ids are remapped by frequency.
    pub connection_id_mapping: bool,
    /// The context-id remap the dictionary was built with, if any.
    pub context_id_map: Option<ContextIdMap>,
    /// The schema of the dictionary's entries.
    pub dictionary_schema: Schema,
    /// The schema of user dictionary entries.
    pub user_dictionary_schema: Schema,
}

impl Metadata {
    /// Metadata in the current format version, without a context-id remap.
    pub fn new(
        name: String,
        encoding: String,
        simple_word_cost: i16,
        default_left_context_id: u16,
        default_right_context_id: u16,
        default_field_value: String,
        flexible_csv: bool,
        skip_invalid_cost_or_id: bool,
        normalize_details: bool,
        schema: Schema,
        userdic_schema: Schema,
    ) -> (r: Self)
        ensures
            r.format_version == DICTIONARY_FORMAT_VERSION,
            r.name == name,
            r.encoding == encoding,
            r.default_word_cost == simple_word_cost,
            r.default_left_context_id == default_left_context_id,
            r.default_right_context_id == default_right_context_id,
            r.default_field_value == default_field_value,
            r.flexible_csv == flexible_csv,
            r.skip_invalid_cost_or_id == skip_invalid_cost_or_id,
            r.normalize_details == normalize_details,
            !r.connection_id_mapping,
            r.context_id_map is None,
            r.dictionary_schema == schema,
            r.user_dictionary_schema == userdic_schema,
    {
        Metadata {
            format_version: DICTIONARY_FORMAT_VERSION,
            name,
            encoding,
            default_word_cost: simple_word_cost,
            default_left_context_id,
            default_right_context_id,
            default_field_value,
            flexible_csv,
            skip_invalid_cost_or_id,
            normalize_details,
            connection_id_mapping: false,
            context_id_map: None,
            dictionary_schema: schema,
            user_dictionary_schema: userdic_schema,
        }
    }

    /// Checks that the dictionary was written in the format version this
    /// library reads; any other version is a deserialize error whose message
    /// names the dictionary and says whether to rebuild it or upgrade.
    pub fn validate_format_version(&self) -> (r: LinderaResult<()>)
        ensures
            r is Ok <==> self.format_version == DICTIONARY_FORMAT_VERSION,
            r matches Err(e) ==> e.kind == LinderaErrorKind::Deserialize,
    {
        if self.format_version == DICTIONARY_FORMAT_VERSION {
            return Ok(());
        }
        let hint = if self.format_version < DICTIONARY_FORMAT_VERSION {
            "rebuild it with `lindera build`, or download a matching prebuilt dictionary with `lindera download`"
        } else {
            "upgrade Lindera to a version that understands this dictionary"
        };
        let head = concat_str("Dictionary '", self.name.as_str());
        let mid = concat_str(
            head.as_str(),
            "' has a format version that this build of Lindera does not read. To fix this, ",
        );
        let message = concat_str(mid.as_str(), hint);
        Err(LinderaErrorKind::Deserialize.with_error(message))
    }
}

impl Default for Metadata {
    /// The metadata of an IPADIC-style dictionary called `default`.
    fn default() -> (r: Self)
        ensures
            r.format_version == DICTIONARY_FORMAT_VERSION,
            r.name@ == "default"@,
            r.encoding@ == "UTF-8"@,
            r.default_word_cost == DEFAULT_WORD_COST,
            r.default_left_context_id == DEFAULT_LEFT_CONTEXT_ID,
            r.default_right_context_id == DEFAULT_RIGHT_CONTEXT_ID,
            r.default_field_value@ == "*"@,
            !r.flexible_csv,
            !r.skip_invalid_cost_or_id,
            !r.normalize_details,
            !r.connection_id_mapping,
            r.context_id_map is None,
            crate::dictionary::schema::names_of(r.dictionary_schema.fields@)
                == crate::dictionary::schema::default_field_names(),
            crate::dictionary::schema::names_of(r.user_dictionary_schema.fields@) == seq![
                "surface"@,
                "reading"@,
                "pronunciation"@,
            ],
    {
        let mut user_fields: Vec<String> = Vec::new();
        user_fields.push("surface".to_owned());
        user_fields.push("reading".to_owned());
        user_fields.push("pronunciation".to_owned());
        assert(crate::dictionary::schema::names_of(user_fields@) =~= seq![
            "surface"@,
            "reading"@,
            "pronunciation"@,
        ]);
        Metadata::new(
            "default".to_owned(),
            "UTF-8".to_owned(),
            DEFAULT_WORD_COST,
            DEFAULT_LEFT_CONTEXT_ID,
            DEFAULT_RIGHT_CONTEXT_ID,
            "*".to_owned(),
            false,
            false,
            false,
            Schema::default(),
            Schema::new(user_fields),
        )
    }
}

} // verus!
