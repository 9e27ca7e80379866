use lindera_dictionary::dictionary::character_definition::{
    find_row, CategoryData, CategoryId, CharacterDefinition, LookupTable,
};

#[test]
fn test_lookup_table() {
    let funct = |c: u32| -> Vec<u32> {
        if c >= 10u32 {
            vec![1u32]
        } else {
            vec![0u32]
        }
    };
    let lookup_table = LookupTable::from_fn(vec![0u32, 10u32], funct);
    for i in 0..100 {
        let v = funct(i);
        assert_eq!(lookup_table.eval(i), &v[..]);
    }
}

fn test_definition() -> CharacterDefinition {
    let mapping = LookupTable::from_fn(vec![0u32, 0x80, 0x3040, 0x4E00, 0x20000], |c: u32| {
        let mut buff = Vec::new();
        if c >= 0x20000 {
            buff.push(CategoryId(3));
        } else if c >= 0x4E00 {
            buff.push(CategoryId(2));
            buff.push(CategoryId(1));
        } else if c >= 0x3040 {
            buff.push(CategoryId(1));
        } else if c >= 0x80 {
            buff.push(CategoryId(3));
        } else {
            buff.push(CategoryId(0));
        }
        buff
    });
    let categories = vec![CategoryData { invoke: false, group: true, length: 0 }; 4];
    let names = vec!["A".into(), "B".into(), "C".into(), "D".into()];
    CharacterDefinition::new(categories, names, mapping)
}

#[test]
fn test_flat_table_matches_binary_search_for_all_chars() {
    let definition = test_definition();
    assert!(!definition.flat_index.is_empty(), "flat table should be built");
    for cp in 0..=0x10FFFFu32 {
        let Some(c) = char::from_u32(cp) else {
            continue;
        };
        assert_eq!(definition.lookup_categories(c), definition.mapping.eval(cp), "mismatch at U+{cp:04X}");
    }
}

#[test]
fn from_fn_adds_zero_and_sorts() {
    let table = LookupTable::from_fn(vec![20u32, 5u32], |c: u32| vec![c]);
    assert_eq!(table.boundaries, vec![0, 5, 20]);
    assert_eq!(table.eval(3), &[0]);
    assert_eq!(table.eval(5), &[5]);
    assert_eq!(table.eval(19), &[5]);
    assert_eq!(table.eval(1000), &[20]);
}

#[test]
fn find_row_takes_the_last_boundary_at_or_below() {
    let b = vec![0u32, 3, 3, 9];
    assert_eq!(find_row(&b, 0), 0);
    assert_eq!(find_row(&b, 3), 2);
    assert_eq!(find_row(&b, 8), 2);
    assert_eq!(find_row(&b, 9), 3);
}

#[test]
fn definition_accessors() {
    let d = test_definition();
    assert_eq!(d.categories().len(), 4);
    assert_eq!(d.category_name(CategoryId(2)), "C");
    assert_eq!(d.category_id_by_name("D"), Some(CategoryId(3)));
    assert_eq!(d.category_id_by_name("E"), None);
    assert!(d.lookup_definition(CategoryId(0)).group);
    assert_eq!(d.lookup_categories('漢'), &[CategoryId(2), CategoryId(1)]);
    let (offset, len) = d.lookup_categories_packed('漢').unwrap();
    assert_eq!(len, 2);
    assert_eq!(d.flat_category(offset as usize), CategoryId(2));
    assert_eq!(d.lookup_categories_packed('\u{20B9F}'), None);
    assert_eq!(d.lookup_categories('\u{20B9F}'), &[CategoryId(3)]);
}
