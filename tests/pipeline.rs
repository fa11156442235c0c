use insign::{compile, compile_pipeline, compile_with_boolean_ops, DslMap, Error, JsonValue, ParseError};

fn json(text: &str) -> JsonValue {
    JsonValue::from_json(text).unwrap()
}

fn meta(map: &DslMap, region: &str, key: &str) -> JsonValue {
    map.get(region).unwrap().metadata.get(key).unwrap().clone()
}

#[test]
fn test_simple_compilation_pipeline() {
    let units = vec![
        ([10, 20, 30], "@test=rc([0,0,0],[1,1,1])".to_string()),
        ([0, 0, 0], "#test:label=\"Test Region\"".to_string()),
    ];
    let dsl_map = compile_pipeline(&units, false).unwrap();
    assert_eq!(dsl_map.len(), 1);
    let test_entry = dsl_map.get("test").unwrap();
    let boxes = test_entry.bounding_boxes.as_ref().unwrap();
    assert_eq!(boxes.len(), 1);
    assert_eq!(boxes[0], ([10, 20, 30], [11, 21, 31]));
    assert_eq!(meta(&dsl_map, "test", "label"), json("\"Test Region\""));
}

#[test]
fn test_compilation_with_anonymous_and_global() {
    let units = vec![
        ([0, 0, 0], "@rc([0,0,0],[1,1,1])\n#label=\"Anonymous with metadata\"".to_string()),
        ([5, 5, 5], "@rc([0,0,0],[2,2,2])".to_string()),
        ([0, 0, 0], "#$global:version=\"1.0\"".to_string()),
        ([0, 0, 0], "@named=ac([10,10,10],[11,11,11])".to_string()),
    ];
    let dsl_map = compile_pipeline(&units, false).unwrap();
    assert_eq!(dsl_map.keys(), vec!["$global", "__anon_0_0", "named"]);
    let global_entry = dsl_map.get("$global").unwrap();
    assert_eq!(global_entry.bounding_boxes, None);
    assert_eq!(meta(&dsl_map, "$global", "version"), json("\"1.0\""));
    let named_entry = dsl_map.get("named").unwrap();
    assert_eq!(named_entry.bounding_boxes.as_ref().unwrap()[0], ([10, 10, 10], [11, 11, 11]));
    let anon_entry = dsl_map.get("__anon_0_0").unwrap();
    assert_eq!(anon_entry.bounding_boxes.as_ref().unwrap()[0], ([0, 0, 0], [1, 1, 1]));
    assert_eq!(meta(&dsl_map, "__anon_0_0", "label"), json("\"Anonymous with metadata\""));
    assert!(!dsl_map.contains_key("__anon_1_0"));
}

#[test]
fn test_compilation_with_expression() {
    let units = vec![
        ([0, 0, 0], "@base=rc([0,0,0],[1,1,1])".to_string()),
        ([5, 5, 5], "@ext=rc([0,0,0],[2,2,2])".to_string()),
        ([0, 0, 0], "@combined=base+ext".to_string()),
        ([0, 0, 0], "#combined:type=\"union\"".to_string()),
    ];
    let dsl_map = compile_pipeline(&units, false).unwrap();
    assert_eq!(dsl_map.len(), 3);
    let boxes = dsl_map.get("combined").unwrap().bounding_boxes.as_ref().unwrap();
    assert_eq!(boxes.len(), 2);
    assert_eq!(boxes[0], ([0, 0, 0], [1, 1, 1]));
    assert_eq!(boxes[1], ([5, 5, 5], [7, 7, 7]));
    assert_eq!(meta(&dsl_map, "combined", "type"), json("\"union\""));
}

#[test]
fn test_compilation_with_wildcards() {
    let units = vec![
        ([0, 0, 0], "@cpu.core=rc([0,0,0],[1,1,1])".to_string()),
        ([0, 0, 0], "@cpu.cache=rc([2,2,2],[3,3,3])".to_string()),
        ([0, 0, 0], "@gpu.core=rc([4,4,4],[5,5,5])".to_string()),
        ([0, 0, 0], "#cpu.*:power=\"low\"".to_string()),
    ];
    let dsl_map = compile_pipeline(&units, false).unwrap();
    assert_eq!(dsl_map.keys(), vec!["cpu.*", "cpu.cache", "cpu.core", "gpu.core"]);
    assert_eq!(dsl_map.get("cpu.*").unwrap().bounding_boxes, None);
    assert_eq!(meta(&dsl_map, "cpu.*", "power"), json("\"low\""));
    assert_eq!(meta(&dsl_map, "cpu.core", "power"), json("\"low\""));
    assert_eq!(meta(&dsl_map, "cpu.cache", "power"), json("\"low\""));
    assert!(!dsl_map.get("gpu.core").unwrap().metadata.contains_key("power"));
}

#[test]
fn test_empty_compilation() {
    let units: Vec<([i32; 3], String)> = vec![];
    let dsl_map = compile_pipeline(&units, false).unwrap();
    assert!(dsl_map.is_empty());
}

#[test]
fn test_compilation_error_propagation() {
    let units = vec![
        ([0, 0, 0], "@test=rc([0,0,0],[1,1,1])\n#label=\"First\"".to_string()),
        ([5, 5, 5], "@test=rc([2,2,2],[3,3,3])\n#label=\"Second\"".to_string()),
    ];
    match compile_pipeline(&units, false).unwrap_err() {
        Error::Parser(ParseError::MetadataConflict { region, key, first_value, conflict_value, .. }) => {
            assert_eq!(region, "test");
            assert_eq!(key, "label");
            assert_eq!(first_value, json("\"First\""));
            assert_eq!(conflict_value, json("\"Second\""));
        }
        other => panic!("Unexpected error type: {:?}", other),
    }
}

#[test]
fn test_comment_filtering_in_pipeline() {
    let units = vec![
        ([0, 0, 0], "; This is a comment\n@test=rc([0,0,0],[1,1,1])\n; Another comment".to_string()),
        ([0, 0, 0], "; Comment before metadata\n#test:label=\"Test Region\"\n; Comment after".to_string()),
    ];
    let dsl_map = compile_pipeline(&units, false).unwrap();
    assert_eq!(dsl_map.len(), 1);
    let boxes = dsl_map.get("test").unwrap().bounding_boxes.as_ref().unwrap();
    assert_eq!(boxes.len(), 1);
    assert_eq!(boxes[0], ([0, 0, 0], [1, 1, 1]));
    assert_eq!(meta(&dsl_map, "test", "label"), json("\"Test Region\""));
}

#[test]
fn test_mixed_statements_with_comments() {
    let units = vec![
        ([0, 0, 0], "; Define a base region\n@base=rc([0,0,0],[1,1,1])\n; End base definition".to_string()),
        ([5, 5, 5], "; Another region\n@ext=rc([0,0,0],[2,2,2])\n; Extension complete".to_string()),
        ([0, 0, 0], "; Combine regions\n@combined=base+ext\n; Combined region created".to_string()),
        ([0, 0, 0], "; Add metadata\n#combined:type=\"union\"\n; Metadata added".to_string()),
    ];
    let dsl_map = compile_pipeline(&units, false).unwrap();
    assert_eq!(dsl_map.len(), 3);
    assert_eq!(dsl_map.get("combined").unwrap().bounding_boxes.as_ref().unwrap().len(), 2);
    assert_eq!(meta(&dsl_map, "combined", "type"), json("\"union\""));
}

#[test]
fn test_empty_lines_and_comments() {
    let units = vec![
        ([0, 0, 0], "; Comment only".to_string()),
        ([0, 0, 0], "\n; Empty line above\n\n@test=rc([0,0,0],[1,1,1])\n\n; Empty lines around".to_string()),
        ([0, 0, 0], "\n\n; Just comments and empty lines\n\n".to_string()),
    ];
    let dsl_map = compile_pipeline(&units, false).unwrap();
    assert_eq!(dsl_map.len(), 1);
    let boxes = dsl_map.get("test").unwrap().bounding_boxes.as_ref().unwrap();
    assert_eq!(boxes.len(), 1);
    assert_eq!(boxes[0], ([0, 0, 0], [1, 1, 1]));
}

#[test]
fn test_compile_empty_input() {
    let map = compile(&[]).unwrap();
    assert!(map.is_empty());
}

#[test]
fn test_compile_stub_returns_ok() {
    let units = vec![([10, 64, 10], "@rc([0,0,0],[3,2,1])\n#doc.label=\"Patch A\"".to_string())];
    assert!(compile(&units).is_ok());
}

#[test]
fn single_anonymous_patch() {
    let units = vec![([10, 64, 10], "@rc([0,0,0],[3,2,1])\n#doc.label=\"Patch A\"".to_string())];
    let map = compile(&units).unwrap();
    assert_eq!(map.keys(), vec!["__anon_0_0"]);
    let entry = map.get("__anon_0_0").unwrap();
    assert_eq!(entry.bounding_boxes, Some(vec![([10, 64, 10], [13, 66, 11])]));
    assert_eq!(meta(&map, "__anon_0_0", "doc.label"), json("\"Patch A\""));
}

#[test]
fn test_compile_cpu_cache_region_name() {
    let units = vec![([0, 0, 0], "@cpu.cache=rc([0,0,0],[1,1,1])\n#doc.label=\"CPU Cache\"".to_string())];
    let dsl_map = compile(&units).unwrap();
    assert!(dsl_map.contains_key("cpu.cache"));
}

#[test]
fn lib_test_m8_complete_end_to_end() {
    let units = vec![
        ([10, 64, 10], "@rc([0,0,0],[3,2,1])\n#doc.label=\"Patch A\"".to_string()),
        ([0, 0, 0], "@cpu.cache=rc([0,0,0],[1,1,1])".to_string()),
        ([0, 0, 0], "#cpu.*:power=\"low\"".to_string()),
        ([0, 0, 0], "#$global:version=\"1.0\"".to_string()),
    ];
    let dsl_map = compile(&units).unwrap();
    assert!(dsl_map.contains_key("$global"));
    assert!(dsl_map.contains_key("__anon_0_0"));
    assert!(dsl_map.contains_key("cpu.*"));
    assert!(dsl_map.contains_key("cpu.cache"));
    assert_eq!(dsl_map.get("$global").unwrap().bounding_boxes, None);
    assert_eq!(meta(&dsl_map, "$global", "version"), json("\"1.0\""));
    assert!(dsl_map.get("__anon_0_0").unwrap().bounding_boxes.is_some());
    assert_eq!(meta(&dsl_map, "__anon_0_0", "doc.label"), json("\"Patch A\""));
    assert_eq!(dsl_map.get("cpu.*").unwrap().bounding_boxes, None);
    assert_eq!(meta(&dsl_map, "cpu.*", "power"), json("\"low\""));
    assert!(dsl_map.get("cpu.cache").unwrap().bounding_boxes.is_some());
    assert_eq!(meta(&dsl_map, "cpu.cache", "power"), json("\"low\""));
    assert_eq!(dsl_map.keys(), vec!["$global", "__anon_0_0", "cpu.*", "cpu.cache"]);
}

#[test]
fn test_m8_complete_test_m8_complete_end_to_end() {
    let units = vec![
        ([10, 64, 10], "@rc([0,0,0],[3,2,1])\n#doc.label=\"Patch A\"".to_string()),
        ([0, 0, 0], "@cpu.cache=rc([0,0,0],[1,1,1])".to_string()),
        ([0, 0, 0], "#cpu.*:power=\"low\"".to_string()),
        ([0, 0, 0], "#$global:version=\"1.0\"".to_string()),
    ];
    let dsl_map = compile(&units).unwrap();
    assert!(dsl_map.contains_key("$global"));
    assert!(dsl_map.contains_key("__anon_0_0"));
    assert!(dsl_map.contains_key("cpu.*"));
    assert!(dsl_map.contains_key("cpu.cache"));
    assert_eq!(dsl_map.get("$global").unwrap().bounding_boxes, None);
    assert_eq!(meta(&dsl_map, "$global", "version"), json("\"1.0\""));
    assert_eq!(meta(&dsl_map, "__anon_0_0", "doc.label"), json("\"Patch A\""));
    assert_eq!(meta(&dsl_map, "cpu.*", "power"), json("\"low\""));
    assert_eq!(meta(&dsl_map, "cpu.cache", "power"), json("\"low\""));
}

#[test]
fn test_boolean_ops_disabled_by_default_minus() {
    let units = vec![([0, 0, 0], "@result=a-b".to_string())];
    let err = compile(&units).unwrap_err();
    let error_message = err.message();
    assert!(error_message.contains("Phase 0 supports only '+' operator"));
    assert!(error_message.contains("Found '-'"));
    assert!(!error_message.contains("boolean_ops"));
    assert!(!error_message.contains("TODO"));
}

#[test]
fn test_boolean_ops_disabled_by_default_and() {
    let units = vec![([0, 0, 0], "@result=a&b".to_string())];
    let error_message = compile(&units).unwrap_err().message();
    assert!(error_message.contains("Phase 0 supports only '+' operator"));
    assert!(error_message.contains("Found '&'"));
    assert!(!error_message.contains("boolean_ops"));
    assert!(!error_message.contains("TODO"));
}

#[test]
fn test_boolean_ops_disabled_by_default_xor() {
    let units = vec![([0, 0, 0], "@result=a^b".to_string())];
    let error_message = compile(&units).unwrap_err().message();
    assert!(error_message.contains("Phase 0 supports only '+' operator"));
    assert!(error_message.contains("Found '^'"));
    assert!(!error_message.contains("boolean_ops"));
    assert!(!error_message.contains("TODO"));
}

#[test]
fn test_mixed_mode_error() {
    let units = vec![
        ([0, 0, 0], "@cpu=rc([0,0,0],[1,1,1])".to_string()),
        ([0, 0, 0], "@cpu=base+ext".to_string()),
    ];
    let error_message = compile(&units).unwrap_err().message();
    assert_eq!(
        error_message,
        "Parser error: Region 'cpu' cannot be both accumulator and defined. Accumulator sources: [SourceLocation { tuple_idx: 0, stmt_idx: 0 }], defined source: SourceLocation { tuple_idx: 1, stmt_idx: 0 }"
    );
}

#[test]
fn test_unknown_region_error() {
    let units = vec![([0, 0, 0], "@result=nonexistent+alsomissing".to_string())];
    let err = compile(&units).unwrap_err();
    assert!(matches!(err, Error::Parser(ParseError::UnknownRegion { ref region, .. }) if region == "nonexistent"));
    assert!(err.message().contains("Unknown region 'nonexistent'"));
}

#[test]
fn lib_test_no_current_region_error() {
    let units = vec![([0, 0, 0], "#label=\"No region to attach to\"".to_string())];
    let err = compile(&units).unwrap_err();
    assert!(matches!(err, Error::Parser(ParseError::NoCurrentRegion { .. })));
    assert!(err.message().contains("No current region found for metadata statement at tuple 0 statement 0"));
}

#[test]
fn test_disallowed_boolean_operators() {
    for (op, input) in [("-", "@result=a-b"), ("&", "@result=a&b"), ("^", "@result=a^b")] {
        let units = vec![([0, 0, 0], input.to_string())];
        let message = compile(&units).unwrap_err().message();
        assert_eq!(
            message,
            format!("Parser error: Phase 0 supports only '+' operator at position 9. Found '{}'", op)
        );
    }
}

#[test]
fn metadata_conflict_scenario() {
    let units = vec![
        ([0, 0, 0], "#test:label=\"First\"".to_string()),
        ([0, 0, 0], "#test:label=\"Second\"".to_string()),
    ];
    match compile(&units).unwrap_err() {
        Error::Parser(ParseError::MetadataConflict { region, key, first_value, conflict_value, .. }) => {
            assert_eq!(region, "test");
            assert_eq!(key, "label");
            assert_eq!(first_value.as_text(), "\"First\"");
            assert_eq!(conflict_value.as_text(), "\"Second\"");
        }
        other => panic!("unexpected {:?}", other),
    }
}

#[test]
fn cycle_scenario() {
    let units = vec![([0, 0, 0], "@a=b".to_string()), ([0, 0, 0], "@b=a".to_string())];
    match compile(&units).unwrap_err() {
        Error::Parser(ParseError::CycleDetected { cycle }) => {
            assert!(cycle.contains(&"a".to_string()));
            assert!(cycle.contains(&"b".to_string()));
        }
        other => panic!("unexpected {:?}", other),
    }
}

#[test]
fn current_region_is_last_geometry_of_unit() {
    let units = vec![([0, 0, 0], "#k=1\n@first=rc([0,0,0],[1,1,1])\n@second=rc([0,0,0],[1,1,1])".to_string())];
    let map = compile(&units).unwrap();
    assert!(map.get("second").unwrap().metadata.contains_key("k"));
    assert!(!map.get("first").unwrap().metadata.contains_key("k"));
}

#[test]
fn test_boolean_ops_enabled_minus_works() {
    let units = vec![
        ([0, 0, 0], "@a=rc([0,0,0],[4,4,4])".to_string()),
        ([0, 0, 0], "@b=rc([1,1,1],[3,3,3])".to_string()),
        ([0, 0, 0], "@result=a-b".to_string()),
    ];
    let dsl_map = compile_with_boolean_ops(&units).unwrap();
    let boxes = dsl_map.get("result").unwrap().bounding_boxes.as_ref().unwrap();
    assert!(!boxes.is_empty());
}

#[test]
fn test_boolean_ops_enabled_and_works() {
    let units = vec![
        ([0, 0, 0], "@a=rc([0,0,0],[4,4,4])".to_string()),
        ([0, 0, 0], "@b=rc([2,2,2],[6,6,6])".to_string()),
        ([0, 0, 0], "@result=a&b".to_string()),
    ];
    let dsl_map = compile_with_boolean_ops(&units).unwrap();
    let boxes = dsl_map.get("result").unwrap().bounding_boxes.as_ref().unwrap();
    assert_eq!(boxes.len(), 1);
    assert_eq!(boxes[0], ([2, 2, 2], [4, 4, 4]));
}

#[test]
fn test_boolean_ops_enabled_xor_works() {
    let units = vec![
        ([0, 0, 0], "@a=rc([0,0,0],[3,3,3])".to_string()),
        ([0, 0, 0], "@b=rc([1,1,1],[4,4,4])".to_string()),
        ([0, 0, 0], "@result=a^b".to_string()),
    ];
    let dsl_map = compile_with_boolean_ops(&units).unwrap();
    assert!(!dsl_map.get("result").unwrap().bounding_boxes.as_ref().unwrap().is_empty());
}

#[test]
fn test_plus_operator_still_works_with_feature() {
    let units = vec![
        ([0, 0, 0], "@a=rc([0,0,0],[1,1,1])".to_string()),
        ([0, 0, 0], "@b=rc([2,0,0],[3,1,1])".to_string()),
        ([0, 0, 0], "@result=a+b".to_string()),
    ];
    let dsl_map = compile_with_boolean_ops(&units).unwrap();
    assert_eq!(dsl_map.get("result").unwrap().bounding_boxes.as_ref().unwrap().len(), 2);
}

#[test]
fn zero_and_negative_zero_do_not_conflict() {
    let units = vec![
        ([0, 0, 0], "#t:k=0.0".to_string()),
        ([0, 0, 0], "#t:k=-0.0".to_string()),
    ];
    assert!(compile(&units).is_ok());
}

#[test]
fn conflict_carries_both_sources() {
    let units = vec![
        ([0, 0, 0], "#test:label=\"First\"".to_string()),
        ([0, 0, 0], "#test:label=\"Second\"".to_string()),
    ];
    match compile(&units).unwrap_err() {
        Error::Parser(ParseError::MetadataConflict { first_source, conflict_source, .. }) => {
            assert_eq!(first_source, insign::SourceLocation::new(0, 0));
            assert_eq!(conflict_source, insign::SourceLocation::new(1, 0));
        }
        other => panic!("unexpected {:?}", other),
    }
}

#[test]
fn cycle_path_starts_at_first_key() {
    let units = vec![([0, 0, 0], "@a=b".to_string()), ([0, 0, 0], "@b=a".to_string())];
    match compile(&units).unwrap_err() {
        Error::Parser(ParseError::CycleDetected { cycle }) => {
            assert_eq!(cycle, vec!["a".to_string(), "b".to_string()]);
        }
        other => panic!("unexpected {:?}", other),
    }
}

#[test]
fn first_failing_region_in_key_order_is_reported() {
    let units = vec![([0, 0, 0], "@z=missing_z\n@b=missing_b".to_string())];
    match compile(&units).unwrap_err() {
        Error::Parser(ParseError::UnknownRegion { region, .. }) => assert_eq!(region, "missing_b"),
        other => panic!("unexpected {:?}", other),
    }
}

#[test]
fn wildcard_conflict_reports_first_region_in_key_order() {
    let units = vec![
        ([0, 0, 0], "@c.y=ac([0,0,0],[1,1,1])\n#k=1".to_string()),
        ([0, 0, 0], "@c.x=ac([0,0,0],[1,1,1])\n#k=2".to_string()),
        ([0, 0, 0], "#c.*:k=3".to_string()),
    ];
    match compile(&units).unwrap_err() {
        Error::Parser(ParseError::MetadataConflict { region, first_value, .. }) => {
            assert_eq!(region, "c.x");
            assert_eq!(first_value.as_text(), "2");
        }
        other => panic!("unexpected {:?}", other),
    }
}

#[test]
fn same_error_every_time() {
    let units = vec![([0, 0, 0], "@a=b+c".to_string()), ([0, 0, 0], "@b=a".to_string())];
    assert_eq!(compile(&units).unwrap_err(), compile(&units).unwrap_err());
}

#[test]
fn parse_failure_is_a_syntax_error() {
    let units = vec![([0, 0, 0], "@x=(a".to_string())];
    assert!(matches!(compile(&units), Err(Error::Parser(ParseError::Expected { .. }))));
}
