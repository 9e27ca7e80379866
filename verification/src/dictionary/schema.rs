//! The schema of dictionary entries: the names of their fields, by column.
use vstd::prelude::*;

use crate::error::{error_of, LinderaErrorKind};
use crate::text::{is_blank_str, str_eq, trims_to_empty};
use crate::LinderaResult;

verus! {

/// The role of a field.
#[derive(Debug, Clone, Copy, PartialEq, Eq, Structural)]
pub enum FieldType {
    /// The surface form (column 0).
    Surface,
    /// The left context id (column 1).
    LeftContextId,
    /// The right context id (column 2).
    RightContextId,
    /// The word cost (column 3).
    Cost,
    /// Any other column.
    Custom,
}

/// A field found by name.
#[derive(Debug, Clone)]
pub struct FieldDefinition {
    /// The column index.
    pub index: usize,
    /// The field name.
    pub name: String,
    /// The role of the field, by its column.
    pub field_type: FieldType,
    /// A description; fields found by name have none.
    pub description: Option<String>,
}

/// The schema of dictionary entries: all field names, common fields first
/// (surface, left_context_id, right_context_id, cost), by column.
#[derive(Debug, Clone)]
pub struct Schema {
    /// All field names, by column.
    pub fields: Vec<String>,
}

/// The column of the last field called `name` among the first `n`, if any
/// (a later duplicate of a name shadows an earlier one).
pub open spec fn last_index_of(fields: Seq<String>, name: Seq<char>, n: int) -> Option<int>
    decreases n,
{
    if n <= 0 {
        None
    } else if fields[n - 1]@ == name {
        Some(n - 1)
    } else {
        last_index_of(fields, name, n - 1)
    }
}

/// The role of the field in column `index`.
pub open spec fn field_type_of(index: int) -> FieldType {
    if index == 0 {
        FieldType::Surface
    } else if index == 1 {
        FieldType::LeftContextId
    } else if index == 2 {
        FieldType::RightContextId
    } else if index == 3 {
        FieldType::Cost
    } else {
        FieldType::Custom
    }
}

/// The field names of the default (IPADIC-style) schema.
pub open spec fn default_field_names() -> Seq<Seq<char>> {
    seq![
        "surface"@,
        "left_context_id"@,
        "right_context_id"@,
        "cost"@,
        "major_pos"@,
        "middle_pos"@,
        "small_pos"@,
        "fine_pos"@,
        "conjugation_type"@,
        "conjugation_form"@,
        "base_form"@,
        "reading"@,
        "pronunciation"@,
    ]
}

/// The names of `fields`, as character sequences.
pub open spec fn names_of(fields: Seq<String>) -> Seq<Seq<char>> {
    fields.map_values(|f: String| f@)
}

/// Whether a CSV row fits the schema: at least as many columns as fields,
/// and no field's column blank.
pub open spec fn row_fits(fields: Seq<String>, row: Seq<String>) -> bool {
    row.len() >= fields.len() && forall|i: int| 0 <= i < fields.len() ==> !is_blank_str(
        #[trigger] row[i]@,
    )
}

impl Schema {
    /// A schema with the given field names.
    pub fn new(fields: Vec<String>) -> (r: Self)
        ensures
            r.fields@ == fields@,
    {
        Schema { fields }
    }

    /// The column of the field called `field_name`; when several fields share
    /// the name, the last one.
    pub fn get_field_index(&self, field_name: &str) -> (r: Option<usize>)
        ensures
            match r {
                Some(i) => last_index_of(self.fields@, field_name@, self.fields@.len() as int) == Some(
                    i as int,
                ),
                None => last_index_of(self.fields@, field_name@, self.fields@.len() as int) is None,
            },
    {
        let mut i: usize = self.fields.len();
        while i > 0
            invariant
                i <= self.fields@.len(),
                last_index_of(self.fields@, field_name@, self.fields@.len() as int)
                    == last_index_of(self.fields@, field_name@, i as int),
            decreases i,
        {
            if str_eq(self.fields[i - 1].as_str(), field_name) {
                return Some(i - 1);
            }
            i -= 1;
        }
        None
    }

    /// The number of fields.
    pub fn field_count(&self) -> (r: usize)
        ensures
            r == self.fields@.len(),
    {
        self.fields.len()
    }

    /// The name of the field in column `index`.
    pub fn get_field_name(&self, index: usize) -> (r: Option<&str>)
        ensures
            match r {
                Some(n) => index < self.fields@.len() && n@ == self.fields@[index as int]@,
                None => index >= self.fields@.len(),
            },
    {
        if index < self.fields.len() {
            Some(self.fields[index].as_str())
        } else {
            None
        }
    }

    /// The custom fields: columns 4 and above.
    pub fn get_custom_fields(&self) -> (r: &[String])
        ensures
            r@ == if self.fields@.len() > 4 {
                self.fields@.skip(4)
            } else {
                Seq::empty()
            },
    {
        if self.fields.len() > 4 {
            let r = &self.fields.as_slice()[4..self.fields.len()];
            assert(r@ =~= self.fields@.skip(4));
            r
        } else {
            let r: &[String] = &[];
            assert(r@ =~= Seq::<String>::empty());
            r
        }
    }

    /// All fields.
    pub fn get_all_fields(&self) -> (r: &[String])
        ensures
            r@ == self.fields@,
    {
        self.fields.as_slice()
    }

    /// Checks that a CSV row has a column for every field and that none of
    /// them is blank.
    pub fn validate_fields(&self, row: &[String]) -> (r: LinderaResult<()>)
        ensures
            r is Ok <==> row_fits(self.fields@, row@),
            r matches Err(e) ==> e.kind == LinderaErrorKind::Content,
    {
        if row.len() < self.fields.len() {
            return Err(error_of(LinderaErrorKind::Content, "CSV row has fewer fields than the schema"));
        }
        let mut i: usize = 0;
        while i < self.fields.len()
            invariant
                i <= self.fields@.len(),
                row@.len() >= self.fields@.len(),
                forall|j: int| 0 <= j < i ==> !is_blank_str(#[trigger] row@[j]@),
            decreases self.fields@.len() - i,
        {
            if trims_to_empty(row[i].as_str()) {
                return Err(error_of(LinderaErrorKind::Content, "Field is missing or empty"));
            }
            i += 1;
        }
        Ok(())
    }

    /// The field called `name` (the last one when several share the name),
    /// with the role its column gives it.
    pub fn get_field_by_name(&self, name: &str) -> (r: Option<FieldDefinition>)
        ensures
            match r {
                Some(f) => last_index_of(self.fields@, name@, self.fields@.len() as int) == Some(
                    f.index as int,
                ) && f.name@ == name@ && f.field_type == field_type_of(f.index as int)
                    && f.description is None,
                None => last_index_of(self.fields@, name@, self.fields@.len() as int) is None,
            },
    {
        match self.get_field_index(name) {
            Some(index) => {
                let field_type = if index == 0 {
                    FieldType::Surface
                } else if index == 1 {
                    FieldType::LeftContextId
                } else if index == 2 {
                    FieldType::RightContextId
                } else if index == 3 {
                    FieldType::Cost
                } else {
                    FieldType::Custom
                };
                Some(FieldDefinition { index, name: name.to_owned(), field_type, description: None })
            },
            None => None,
        }
    }
}

impl Default for Schema {
    /// The IPADIC-style schema with 13 fields.
    fn default() -> (r: Self)
        ensures
            names_of(r.fields@) == default_field_names(),
    {
        let mut fields: Vec<String> = Vec::new();
        fields.push("surface".to_owned());
        fields.push("left_context_id".to_owned());
        fields.push("right_context_id".to_owned());
        fields.push("cost".to_owned());
        fields.push("major_pos".to_owned());
        fields.push("middle_pos".to_owned());
        fields.push("small_pos".to_owned());
        fields.push("fine_pos".to_owned());
        fields.push("conjugation_type".to_owned());
        fields.push("conjugation_form".to_owned());
        fields.push("base_form".to_owned());
        fields.push("reading".to_owned());
        fields.push("pronunciation".to_owned());
        assert(names_of(fields@) =~= default_field_names());
        Schema::new(fields)
    }
}

} // verus!
