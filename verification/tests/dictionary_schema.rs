use lindera_dictionary::dictionary_builder::dictionary_schema::{DictionarySchema, FieldType};

#[test]
fn test_ipadic_schema() {
    let schema = DictionarySchema::ipadic();
    assert_eq!(schema.name, "IPADIC");
    assert_eq!(schema.version, "2.7.0");
    assert_eq!(schema.fields.len(), 13);

    // Check surface field
    let surface_field = schema.get_field_by_name("surface").unwrap();
    assert_eq!(surface_field.index, 0);
    assert_eq!(surface_field.field_type, FieldType::Surface);

    // Check detail fields
    let detail_fields = schema.get_detail_fields();
    assert_eq!(detail_fields.len(), 9); // 13 - 4 = 9
}

#[test]
fn test_unidic_schema() {
    let schema = DictionarySchema::unidic();
    assert_eq!(schema.name, "UniDic");
    assert_eq!(schema.version, "2.1.2");
    assert_eq!(schema.fields.len(), 21);

    // Check lexeme field
    let lexeme_field = schema.get_field_by_name("lexeme").unwrap();
    assert_eq!(lexeme_field.index, 11);
    assert_eq!(lexeme_field.field_type, FieldType::Custom);

    // Check detail fields
    let detail_fields = schema.get_detail_fields();
    assert_eq!(detail_fields.len(), 17); // 21 - 4 = 17
}

#[test]
fn test_cc_cedict_schema() {
    let schema = DictionarySchema::cc_cedict();
    assert_eq!(schema.name, "CC-CEDICT");
    assert_eq!(schema.version, "1.0.0");
    assert_eq!(schema.fields.len(), 12);

    // Check pinyin field
    let pinyin_field = schema.get_field_by_name("pinyin").unwrap();
    assert_eq!(pinyin_field.index, 8);
    assert_eq!(pinyin_field.field_type, FieldType::Custom);
}

#[test]
fn test_ko_dic_schema() {
    let schema = DictionarySchema::ko_dic();
    assert_eq!(schema.name, "KO-DIC");
    assert_eq!(schema.version, "1.0.0");
    assert_eq!(schema.fields.len(), 12);

    // Check pos_tag field
    let pos_tag_field = schema.get_field_by_name("pos_tag").unwrap();
    assert_eq!(pos_tag_field.index, 4);
    assert_eq!(pos_tag_field.field_type, FieldType::Custom);
}

#[test]
fn test_common_field_index() {
    let schema = DictionarySchema::ipadic();

    assert_eq!(schema.get_common_field_index(&FieldType::Surface), Some(0));
    assert_eq!(
        schema.get_common_field_index(&FieldType::LeftContextId),
        Some(1)
    );
    assert_eq!(
        schema.get_common_field_index(&FieldType::RightContextId),
        Some(2)
    );
    assert_eq!(schema.get_common_field_index(&FieldType::Cost), Some(3));
}

#[test]
fn test_get_field_by_name() {
    let schema = DictionarySchema::ipadic();

    // Valid field name
    let field = schema.get_field_by_name("surface").unwrap();
    assert_eq!(field.index, 0);
    assert_eq!(field.name, "surface");
    assert_eq!(field.field_type, FieldType::Surface);

    // Invalid field name
    assert!(schema.get_field_by_name("nonexistent").is_none());

    // Check all fields exist
    let expected_fields = vec![
        "surface",
        "left_context_id",
        "right_context_id",
        "cost",
        "major_pos",
        "middle_pos",
        "small_pos",
        "fine_pos",
        "conjugation_type",
        "conjugation_form",
        "base_form",
        "reading",
        "pronunciation",
    ];
    for field_name in expected_fields {
        assert!(schema.get_field_by_name(field_name).is_some());
    }
}

#[test]
fn test_get_detail_fields() {
    let schema = DictionarySchema::ipadic();
    let detail_fields = schema.get_detail_fields();

    assert_eq!(detail_fields.len(), 9); // 13 - 4 = 9

    // Check that all detail fields have index >= 4
    for field in &detail_fields {
        assert!(field.index >= 4);
    }

    // Check that fields are sorted by index
    let mut prev_index = 0;
    for field in &detail_fields {
        assert!(field.index > prev_index);
        prev_index = field.index;
    }
}

#[test]
fn test_validate_common_fields_success() {
    let schema = DictionarySchema::ipadic();
    let record = vec![
        "surface_form",       // Surface (index 0)
        "123",                // LeftContextId (index 1)
        "456",                // RightContextId (index 2)
        "789",                // Cost (index 3)
        "名詞",               // MajorPos (index 4)
        "一般",               // MiddlePos (index 5)
        "*",                  // SmallPos (index 6)
        "*",                  // FinePos (index 7)
        "*",                  // ConjugationType (index 8)
        "*",                  // ConjugationForm (index 9)
        "surface_form",       // BaseForm (index 10)
        "サーフェスフォーム", // Reading (index 11)
        "サーフェスフォーム", // Pronunciation (index 12)
    ].iter().map(|s: &&str| s.to_string()).collect::<Vec<String>>();

    let result = schema.validate_common_fields(&record);
    assert!(result.is_ok());
}

#[test]
fn test_validate_common_fields_empty_field() {
    let schema = DictionarySchema::ipadic();
    let record = vec![
        "", // Empty surface (should fail)
        "123",
        "456",
        "789",
        "名詞",
        "一般",
        "*",
        "*",
        "*",
        "*",
        "surface_form",
        "サーフェスフォーム",
        "サーフェスフォーム",
    ].iter().map(|s: &&str| s.to_string()).collect::<Vec<String>>();

    let result = schema.validate_common_fields(&record);
    assert!(result.is_err());
}

#[test]
fn test_validate_common_fields_missing_field() {
    let schema = DictionarySchema::ipadic();
    let record = vec![
        "surface_form", // Only first field
    ].iter().map(|s: &&str| s.to_string()).collect::<Vec<String>>();

    let result = schema.validate_common_fields(&record);
    assert!(result.is_err());
}

#[test]
fn test_field_type_equality() {
    assert_eq!(FieldType::Surface, FieldType::Surface);
    assert_eq!(FieldType::LeftContextId, FieldType::LeftContextId);
    assert_eq!(FieldType::RightContextId, FieldType::RightContextId);
    assert_eq!(FieldType::Cost, FieldType::Cost);
    assert_eq!(FieldType::Custom, FieldType::Custom);

    assert_ne!(FieldType::Surface, FieldType::Custom);
    assert_ne!(FieldType::LeftContextId, FieldType::RightContextId);
}

#[test]
fn test_all_dictionary_schemas_have_common_fields() {
    let schemas = vec![
        DictionarySchema::ipadic(),
        DictionarySchema::unidic(),
        DictionarySchema::cc_cedict(),
        DictionarySchema::ko_dic(),
    ];

    for schema in schemas {
        // Check that all schemas have the 4 common fields
        assert!(schema.get_common_field_index(&FieldType::Surface).is_some());
        assert!(
            schema
                .get_common_field_index(&FieldType::LeftContextId)
                .is_some()
        );
        assert!(
            schema
                .get_common_field_index(&FieldType::RightContextId)
                .is_some()
        );
        assert!(schema.get_common_field_index(&FieldType::Cost).is_some());

        // Check that common fields are at expected indices
        assert_eq!(schema.get_common_field_index(&FieldType::Surface), Some(0));
        assert_eq!(
            schema.get_common_field_index(&FieldType::LeftContextId),
            Some(1)
        );
        assert_eq!(
            schema.get_common_field_index(&FieldType::RightContextId),
            Some(2)
        );
        assert_eq!(schema.get_common_field_index(&FieldType::Cost), Some(3));
    }
}

#[test]
fn test_unidic_specific_fields() {
    let schema = DictionarySchema::unidic();

    // Check specific UniDic fields
    assert!(schema.get_field_by_name("lexeme_reading").is_some());
    assert!(schema.get_field_by_name("lexeme").is_some());
    assert!(schema.get_field_by_name("orthography_appearance").is_some());
    assert!(
        schema
            .get_field_by_name("pronunciation_appearance")
            .is_some()
    );
    assert!(schema.get_field_by_name("word_type").is_some());
    assert!(schema.get_field_by_name("prefix_form").is_some());
    assert!(schema.get_field_by_name("suffix_type").is_some());
}

#[test]
fn test_cc_cedict_specific_fields() {
    let schema = DictionarySchema::cc_cedict();

    // Check specific CC-CEDICT fields
    assert!(schema.get_field_by_name("pinyin").is_some());
    assert!(schema.get_field_by_name("traditional").is_some());
    assert!(schema.get_field_by_name("simplified").is_some());
    assert!(schema.get_field_by_name("definition").is_some());

    // Check field indices
    assert_eq!(schema.get_field_by_name("pinyin").unwrap().index, 8);
    assert_eq!(schema.get_field_by_name("traditional").unwrap().index, 9);
    assert_eq!(schema.get_field_by_name("simplified").unwrap().index, 10);
    assert_eq!(schema.get_field_by_name("definition").unwrap().index, 11);
}

#[test]
fn test_ko_dic_specific_fields() {
    let schema = DictionarySchema::ko_dic();

    // Check specific KO-DIC fields
    assert!(schema.get_field_by_name("pos_tag").is_some());
    assert!(schema.get_field_by_name("meaning").is_some());
    assert!(schema.get_field_by_name("presence_absence").is_some());
    assert!(schema.get_field_by_name("reading").is_some());
    assert!(schema.get_field_by_name("type").is_some());
    assert!(schema.get_field_by_name("first_pos").is_some());
    assert!(schema.get_field_by_name("last_pos").is_some());
    assert!(schema.get_field_by_name("expression").is_some());
}
