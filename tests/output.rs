use insign::{apply_deterministic_ordering, shape_final_output, DslEntry, DslMap, JsonValue, KeyMap, RegionCategory};

fn make_entry(boxes: Option<Vec<([i32; 3], [i32; 3])>>, metadata: &[(&str, &str)]) -> DslEntry {
    let mut meta_map = KeyMap::new();
    for (key, value) in metadata {
        meta_map.insert(key.to_string(), JsonValue::from_json(value).unwrap());
    }
    DslEntry { bounding_boxes: boxes, metadata: meta_map }
}

#[test]
fn test_region_category_ordering() {
    let mut categories = [
        RegionCategory::Region("zebra".to_string()),
        RegionCategory::Anonymous("__anon_0_0".to_string()),
        RegionCategory::Wildcard("cpu.*".to_string()),
        RegionCategory::Global,
        RegionCategory::Region("apple".to_string()),
        RegionCategory::Wildcard("*.cache".to_string()),
    ];
    categories.sort();
    assert!(matches!(categories[0], RegionCategory::Global));
    assert!(matches!(categories[1], RegionCategory::Wildcard(_)));
    assert!(matches!(categories[2], RegionCategory::Wildcard(_)));
    assert!(matches!(categories[3], RegionCategory::Region(_)));
    assert!(matches!(categories[4], RegionCategory::Region(_)));
    assert!(matches!(categories[5], RegionCategory::Anonymous(_)));
    if let RegionCategory::Wildcard(ref name) = categories[1] {
        assert!(name.starts_with("*.cache") || name.starts_with("cpu.*"));
    }
    if let RegionCategory::Region(ref name) = categories[3] {
        assert_eq!(name, "apple");
    }
    if let RegionCategory::Region(ref name) = categories[4] {
        assert_eq!(name, "zebra");
    }
}

#[test]
fn region_categories_of_names() {
    assert_eq!(RegionCategory::from_region_name("$global"), RegionCategory::Global);
    assert_eq!(RegionCategory::from_region_name("cpu.*"), RegionCategory::Wildcard("cpu.*".to_string()));
    assert_eq!(RegionCategory::from_region_name("__anon_1_2"), RegionCategory::Anonymous("__anon_1_2".to_string()));
    assert_eq!(RegionCategory::from_region_name("cpu"), RegionCategory::Region("cpu".to_string()));
}

#[test]
fn test_deterministic_ordering() {
    let mut dsl_map: DslMap = KeyMap::new();
    dsl_map.insert("zebra".to_string(), make_entry(Some(vec![([0, 0, 0], [1, 1, 1])]), &[]));
    dsl_map.insert("$global".to_string(), make_entry(None, &[("version", "\"1.0\"")]));
    dsl_map.insert("cpu.*".to_string(), make_entry(None, &[("power", "\"low\"")]));
    dsl_map.insert("apple".to_string(), make_entry(Some(vec![([2, 2, 2], [3, 3, 3])]), &[]));
    dsl_map.insert("*.cache".to_string(), make_entry(None, &[("size", "1024")]));
    dsl_map.insert(
        "__anon_0_0".to_string(),
        make_entry(Some(vec![([4, 4, 4], [5, 5, 5])]), &[("label", "\"anon\"")]),
    );
    let ordered_map = apply_deterministic_ordering(dsl_map);
    assert_eq!(ordered_map.keys(), vec!["$global", "*.cache", "__anon_0_0", "apple", "cpu.*", "zebra"]);
}

#[test]
fn test_filter_anonymous_without_metadata() {
    let mut dsl_map: DslMap = KeyMap::new();
    dsl_map.insert("__anon_0_0".to_string(), make_entry(Some(vec![([0, 0, 0], [1, 1, 1])]), &[]));
    dsl_map.insert(
        "__anon_0_1".to_string(),
        make_entry(Some(vec![([2, 2, 2], [3, 3, 3])]), &[("label", "\"kept\"")]),
    );
    dsl_map.insert("named".to_string(), make_entry(Some(vec![([4, 4, 4], [5, 5, 5])]), &[]));
    let shaped_map = shape_final_output(dsl_map);
    assert!(!shaped_map.contains_key("__anon_0_0"));
    assert!(shaped_map.contains_key("__anon_0_1"));
    assert!(shaped_map.contains_key("named"));
}

#[test]
fn test_shape_final_output_complete() {
    let mut dsl_map: DslMap = KeyMap::new();
    dsl_map.insert("region_z".to_string(), make_entry(Some(vec![([0, 0, 0], [1, 1, 1])]), &[]));
    dsl_map.insert("$global".to_string(), make_entry(None, &[("version", "\"1.0\"")]));
    dsl_map.insert("cpu.*".to_string(), make_entry(None, &[("power", "\"low\"")]));
    dsl_map.insert(
        "region_a".to_string(),
        make_entry(Some(vec![([2, 2, 2], [3, 3, 3])]), &[("type", "\"test\"")]),
    );
    dsl_map.insert("__anon_0_0".to_string(), make_entry(Some(vec![([4, 4, 4], [5, 5, 5])]), &[]));
    dsl_map.insert(
        "__anon_0_1".to_string(),
        make_entry(Some(vec![([6, 6, 6], [7, 7, 7])]), &[("anon_label", "\"kept\"")]),
    );
    dsl_map.insert("*.cache".to_string(), make_entry(None, &[("size", "2048")]));
    let shaped_map = shape_final_output(dsl_map);
    assert_eq!(shaped_map.keys(), vec!["$global", "*.cache", "__anon_0_1", "cpu.*", "region_a", "region_z"]);
    assert!(!shaped_map.contains_key("__anon_0_0"));
}

#[test]
fn keys_sort_by_code_point_not_insertion() {
    let mut m: KeyMap<u8> = KeyMap::new();
    for (i, k) in ["b", "a", "\u{e9}", "Z", "ab", "a"].iter().enumerate() {
        m.insert(k.to_string(), i as u8);
    }
    assert_eq!(m.keys(), vec!["Z", "a", "ab", "b", "\u{e9}"]);
    assert_eq!(m.get("a"), Some(&5));
    assert_eq!(m.len(), 5);
}
