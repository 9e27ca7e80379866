use lindera_dictionary::dictionary::schema::{FieldType, Schema};

#[test]
fn test_new_schema() {
    let fields = vec!["field1".to_string(), "field2".to_string()];
    let schema = Schema::new(fields);
    assert_eq!(schema.fields.len(), 2);
    assert_eq!(schema.get_field_index("field2"), Some(1));
}

#[test]
fn test_field_index_lookup() {
    let schema = Schema::default();
    assert_eq!(schema.get_field_index("surface"), Some(0));
    assert_eq!(schema.get_field_index("left_context_id"), Some(1));
    assert_eq!(schema.get_field_index("right_context_id"), Some(2));
    assert_eq!(schema.get_field_index("cost"), Some(3));
    assert_eq!(schema.get_field_index("major_pos"), Some(4));
    assert_eq!(schema.get_field_index("base_form"), Some(10));
    assert_eq!(schema.get_field_index("pronunciation"), Some(12));
    assert_eq!(schema.get_field_index("nonexistent"), None);
}

#[test]
fn test_field_name_lookup() {
    let schema = Schema::default();
    assert_eq!(schema.get_field_name(0), Some("surface"));
    assert_eq!(schema.get_field_name(3), Some("cost"));
    assert_eq!(schema.get_field_name(4), Some("major_pos"));
    assert_eq!(schema.get_field_name(12), Some("pronunciation"));
    assert_eq!(schema.get_field_name(13), None);
}

#[test]
fn test_default_schema() {
    let schema = Schema::default();
    assert_eq!(schema.field_count(), 13);
    assert_eq!(schema.fields.len(), 13);
    assert_eq!(schema.get_custom_fields().len(), 9);
}

#[test]
fn test_field_access() {
    let schema = Schema::default();
    assert_eq!(schema.get_field_index("surface"), Some(0));
    assert_eq!(schema.get_field_index("left_context_id"), Some(1));
    assert_eq!(schema.get_field_index("right_context_id"), Some(2));
    assert_eq!(schema.get_field_index("cost"), Some(3));
}

fn row(fields: &[&str]) -> Vec<String> {
    fields.iter().map(|s| s.to_string()).collect()
}

#[test]
fn test_validate_fields_success() {
    let schema = Schema::default();
    let record = row(&[
        "surface_form", "123", "456", "789", "名詞", "一般", "*", "*", "*", "*", "surface_form", "読み", "発音",
    ]);
    assert!(schema.validate_fields(&record).is_ok());
}

#[test]
fn test_validate_fields_empty_field() {
    let schema = Schema::default();
    let record = row(&[
        "", "123", "456", "789", "名詞", "一般", "*", "*", "*", "*", "surface_form", "読み", "発音",
    ]);
    assert!(schema.validate_fields(&record).is_err());
}

#[test]
fn test_validate_fields_missing_field() {
    let schema = Schema::default();
    let record = row(&["surface_form"]);
    assert!(schema.validate_fields(&record).is_err());
}

#[test]
fn test_backward_compatibility() {
    let schema = Schema::default();
    let field = schema.get_field_by_name("surface").unwrap();
    assert_eq!(field.index, 0);
    assert_eq!(field.name, "surface");
    assert_eq!(field.field_type, FieldType::Surface);
    let field = schema.get_field_by_name("major_pos").unwrap();
    assert_eq!(field.index, 4);
    assert_eq!(field.name, "major_pos");
    assert_eq!(field.field_type, FieldType::Custom);
}

#[test]
fn test_custom_fields() {
    let schema = Schema::default();
    let custom_fields = schema.get_custom_fields();
    assert_eq!(custom_fields.len(), 9);
    assert_eq!(custom_fields[0], "major_pos");
    assert_eq!(custom_fields[8], "pronunciation");
}

#[test]
fn duplicate_names_resolve_to_the_last_column() {
    let schema = Schema::new(row(&["a", "b", "a"]));
    assert_eq!(schema.get_field_index("a"), Some(2));
    assert_eq!(schema.get_all_fields().len(), 3);
    let short = Schema::new(row(&["a", "b"]));
    assert!(short.get_custom_fields().is_empty());
    let blank = Schema::new(row(&["a", "b"]));
    assert!(blank.validate_fields(&row(&["x", " \t"])).is_err());
}
