use lindera_dictionary::dictionary_builder::unidic::UnidicBuilder;

#[test]
fn simple_user_rows_get_seventeen_unidic_fields() {
    let row: Vec<String> = ["東京スカイツリー", "カスタム名詞", "トウキョウスカイツリー"].iter().map(|s| s.to_string()).collect();
    let details = UnidicBuilder::new().simple_userdic_details(&row);
    assert_eq!(details.len(), 17);
    assert_eq!(details[0], "カスタム名詞");
    assert_eq!(details[6], "トウキョウスカイツリー");
    for (i, f) in details.iter().enumerate() {
        if i != 0 && i != 6 {
            assert_eq!(f, "*");
        }
    }
}
