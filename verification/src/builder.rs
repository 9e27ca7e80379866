pub mod connection_cost_matrix;
pub mod context_id_remap;
pub mod unknown_dictionary;
pub mod metadata;
pub mod prefix_dictionary;
pub mod user_dictionary;

use vstd::prelude::*;
use crate::LinderaResult;
use crate::builder::user_dictionary::{
    UserDetailMapping,
    UserDictionaryBuilder,
    UserDictionaryBuilderOptions,
};
use crate::dictionary::UserDictionary;
use crate::dictionary::metadata::Metadata;

verus! {

/// Builds dictionaries by the settings of their metadata.
#[derive(Clone)]
pub struct DictionaryBuilder {
    /// The metadata of the dictionary being built.
    pub metadata: Metadata,
}

impl DictionaryBuilder {
    /// A builder for the dictionary described by `metadata`.
    pub fn new(metadata: Metadata) -> (r: Self)
        ensures
            r.metadata == metadata,
    {
        DictionaryBuilder { metadata }
    }

    /// The user dictionary builder for this dictionary: simple rows have the
    /// user schema's number of columns and detailed rows at least the
    /// dictionary schema's; the default cost, context ids and CSV
    /// flexibility come from the metadata; the details of a simple row are
    /// laid out in the dictionary schema, fields the row lacks taking the
    /// metadata's default field value.
    pub fn user_dictionary_builder(&self) -> (r: UserDictionaryBuilder)
        ensures
            builder_for(self.metadata, r),
    {
        let mapping = UserDetailMapping::new(
            crate::dictionary::schema::Schema::new(self.metadata.user_dictionary_schema.fields.clone()),
            crate::dictionary::schema::Schema::new(self.metadata.dictionary_schema.fields.clone()),
            self.metadata.default_field_value.clone(),
        );
        UserDictionaryBuilderOptions::default().user_dictionary_fields_num(
            self.metadata.user_dictionary_schema.field_count(),
        ).dictionary_fields_num(self.metadata.dictionary_schema.field_count()).default_word_cost(
            self.metadata.default_word_cost,
        ).default_left_context_id(self.metadata.default_left_context_id).default_right_context_id(
            self.metadata.default_right_context_id,
        ).flexible_csv(self.metadata.flexible_csv).user_dictionary_handler(Some(mapping)).builder()
    }

    /// Builds a user dictionary from CSV text with the builder for this
    /// dictionary.
    pub fn build_user_dict_from_reader(&self, content: &[u8]) -> (r: LinderaResult<UserDictionary>)
        ensures
            exists|b: UserDictionaryBuilder| builder_for(self.metadata, b) && #[trigger] b.reader_outcome(content@, r),
    {
        let b = self.user_dictionary_builder();
        b.build_from_reader(content)
    }
}

/// Whether `b` is the user dictionary builder for a dictionary with
/// metadata `m`.
pub open spec fn builder_for(m: Metadata, b: UserDictionaryBuilder) -> bool {
    &&& b.user_dictionary_fields_num == m.user_dictionary_schema.fields@.len()
    &&& b.dictionary_fields_num == m.dictionary_schema.fields@.len()
    &&& b.default_word_cost == m.default_word_cost
    &&& b.default_left_context_id == m.default_left_context_id
    &&& b.default_right_context_id == m.default_right_context_id
    &&& b.flexible_csv == m.flexible_csv
    &&& b.user_dictionary_handler matches Some(h) && h.user_schema.fields@ == m.user_dictionary_schema.fields@
        && h.dict_schema.fields@ == m.dictionary_schema.fields@ && h.default_field_value@ == m.default_field_value@
}

} // verus!
