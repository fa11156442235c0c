use insign::{
    apply_metadata_pass, build_dsl_map, find_last_geometry_in_tuple, matches_wildcard,
    EvaluatedRegionTable, GeomStmt, GeometryStatement, JsonValue, MetaStmt, MetadataAssignment,
    MetadataParser, MetadataStatement, ParseError, SourceLocation,
};

fn json(text: &str) -> JsonValue {
    JsonValue::from_json(text).unwrap()
}

fn make_geom_stmt(tuple_idx: usize, stmt_idx: usize, statement: GeometryStatement) -> GeomStmt {
    GeomStmt::new(tuple_idx, stmt_idx, statement)
}

fn make_meta_stmt(tuple_idx: usize, stmt_idx: usize, statement: MetadataStatement) -> MetaStmt {
    MetaStmt::new(tuple_idx, stmt_idx, statement)
}

fn make_rc(region: Option<String>, corners: ([i32; 3], [i32; 3])) -> GeometryStatement {
    GeometryStatement::RelativeCoordinate { region, corners }
}

#[test]
fn test_find_last_geometry_in_tuple() {
    let geom_stmts = vec![
        make_geom_stmt(0, 0, make_rc(Some("first".to_string()), ([0, 0, 0], [1, 1, 1]))),
        make_geom_stmt(0, 1, make_rc(Some("second".to_string()), ([2, 2, 2], [3, 3, 3]))),
        make_geom_stmt(1, 0, make_rc(Some("third".to_string()), ([4, 4, 4], [5, 5, 5]))),
    ];
    assert_eq!(find_last_geometry_in_tuple(&geom_stmts, 0), Some("second".to_string()));
    assert_eq!(find_last_geometry_in_tuple(&geom_stmts, 1), Some("third".to_string()));
    assert_eq!(find_last_geometry_in_tuple(&geom_stmts, 2), None);
}

#[test]
fn test_find_last_geometry_anonymous() {
    let geom_stmts = vec![
        make_geom_stmt(0, 0, make_rc(None, ([0, 0, 0], [1, 1, 1]))),
        make_geom_stmt(0, 1, make_rc(Some("named".to_string()), ([2, 2, 2], [3, 3, 3]))),
        make_geom_stmt(0, 2, make_rc(None, ([4, 4, 4], [5, 5, 5]))),
    ];
    assert_eq!(find_last_geometry_in_tuple(&geom_stmts, 0), Some("__anon_0_2".to_string()));
}

#[test]
fn test_wildcard_matching() {
    assert!(matches_wildcard("cpu.core", "cpu.*"));
    assert!(matches_wildcard("cpu.cache", "cpu.*"));
    assert!(!matches_wildcard("gpu.core", "cpu.*"));
    assert!(!matches_wildcard("cpu", "cpu.*"));
    assert!(matches_wildcard("core.cpu", "*.cpu"));
    assert!(matches_wildcard("cache.cpu", "*.cpu"));
    assert!(!matches_wildcard("core.gpu", "*.cpu"));
    assert!(matches_wildcard("exact", "exact"));
    assert!(!matches_wildcard("exact2", "exact"));
}

#[test]
fn test_current_region_metadata() {
    let mut evaluated_table = EvaluatedRegionTable::new();
    evaluated_table.set_region_boxes("test_region".to_string(), Some(vec![([0, 0, 0], [1, 1, 1])]));
    let geom_stmts = vec![make_geom_stmt(0, 0, make_rc(Some("test_region".to_string()), ([0, 0, 0], [1, 1, 1])))];
    let meta_stmts = vec![make_meta_stmt(
        0,
        1,
        MetadataStatement::Current { key: "label".to_string(), value: json("\"Test Label\"") },
    )];
    apply_metadata_pass(&mut evaluated_table, &geom_stmts, &meta_stmts).unwrap();
    let region_data = evaluated_table.regions.get("test_region").unwrap();
    assert_eq!(region_data.metadata.len(), 1);
    assert_eq!(region_data.metadata.get("label").unwrap().value, json("\"Test Label\""));
}

#[test]
fn test_explicit_target_metadata() {
    let mut evaluated_table = EvaluatedRegionTable::new();
    let geom_stmts: Vec<GeomStmt> = vec![];
    let meta_stmts = vec![make_meta_stmt(
        0,
        0,
        MetadataStatement::Targeted {
            target: "new_region".to_string(),
            key: "type".to_string(),
            value: json("\"special\""),
        },
    )];
    apply_metadata_pass(&mut evaluated_table, &geom_stmts, &meta_stmts).unwrap();
    let region_data = evaluated_table.regions.get("new_region").unwrap();
    assert_eq!(region_data.boxes, None);
    assert_eq!(region_data.metadata.len(), 1);
    assert_eq!(region_data.metadata.get("type").unwrap().value, json("\"special\""));
}

#[test]
fn test_metadata_conflict_detection() {
    let mut evaluated_table = EvaluatedRegionTable::new();
    let geom_stmts = vec![
        make_geom_stmt(0, 0, make_rc(Some("test".to_string()), ([0, 0, 0], [1, 1, 1]))),
        make_geom_stmt(1, 0, make_rc(Some("test".to_string()), ([2, 2, 2], [3, 3, 3]))),
    ];
    let meta_stmts = vec![
        make_meta_stmt(0, 1, MetadataStatement::Current { key: "label".to_string(), value: json("\"First\"") }),
        make_meta_stmt(1, 1, MetadataStatement::Current { key: "label".to_string(), value: json("\"Second\"") }),
    ];
    let result = apply_metadata_pass(&mut evaluated_table, &geom_stmts, &meta_stmts);
    match result.unwrap_err() {
        ParseError::MetadataConflict { region, key, first_value, conflict_value, first_source, conflict_source } => {
            assert_eq!(region, "test");
            assert_eq!(key, "label");
            assert_eq!(first_value, json("\"First\""));
            assert_eq!(conflict_value, json("\"Second\""));
            assert_eq!(first_source, SourceLocation::new(0, 1));
            assert_eq!(conflict_source, SourceLocation::new(1, 1));
        }
        _ => panic!("Expected MetadataConflict error"),
    }
}

#[test]
fn test_identical_duplicate_allowed() {
    let mut evaluated_table = EvaluatedRegionTable::new();
    let geom_stmts = vec![
        make_geom_stmt(0, 0, make_rc(Some("test".to_string()), ([0, 0, 0], [1, 1, 1]))),
        make_geom_stmt(1, 0, make_rc(Some("test".to_string()), ([2, 2, 2], [3, 3, 3]))),
    ];
    let meta_stmts = vec![
        make_meta_stmt(0, 1, MetadataStatement::Current { key: "label".to_string(), value: json("\"Same\"") }),
        make_meta_stmt(1, 1, MetadataStatement::Current { key: "label".to_string(), value: json("\"Same\"") }),
    ];
    assert!(apply_metadata_pass(&mut evaluated_table, &geom_stmts, &meta_stmts).is_ok());
    let region_data = evaluated_table.regions.get("test").unwrap();
    assert_eq!(region_data.metadata.get("label").unwrap().value, json("\"Same\""));
    assert_eq!(region_data.metadata.get("label").unwrap().source, SourceLocation::new(0, 1));
}

#[test]
fn test_wildcard_metadata() {
    let mut evaluated_table = EvaluatedRegionTable::new();
    evaluated_table.set_region_boxes("cpu.core".to_string(), Some(vec![([0, 0, 0], [1, 1, 1])]));
    evaluated_table.set_region_boxes("cpu.cache".to_string(), Some(vec![([2, 2, 2], [3, 3, 3])]));
    evaluated_table.set_region_boxes("gpu.core".to_string(), Some(vec![([4, 4, 4], [5, 5, 5])]));
    let geom_stmts: Vec<GeomStmt> = vec![];
    let meta_stmts = vec![make_meta_stmt(
        0,
        0,
        MetadataStatement::Targeted { target: "cpu.*".to_string(), key: "power".to_string(), value: json("\"low\"") },
    )];
    apply_metadata_pass(&mut evaluated_table, &geom_stmts, &meta_stmts).unwrap();
    assert!(evaluated_table.regions.contains_key("cpu.*"));
    let wildcard = evaluated_table.regions.get("cpu.*").unwrap();
    assert_eq!(wildcard.boxes, None);
    assert_eq!(wildcard.metadata.get("power").unwrap().value, json("\"low\""));
    assert_eq!(evaluated_table.regions.get("cpu.core").unwrap().metadata.get("power").unwrap().value, json("\"low\""));
    assert_eq!(evaluated_table.regions.get("cpu.cache").unwrap().metadata.get("power").unwrap().value, json("\"low\""));
    assert!(!evaluated_table.regions.get("gpu.core").unwrap().metadata.contains_key("power"));
}

#[test]
fn test_global_metadata() {
    let mut evaluated_table = EvaluatedRegionTable::new();
    let geom_stmts: Vec<GeomStmt> = vec![];
    let meta_stmts = vec![make_meta_stmt(
        0,
        0,
        MetadataStatement::Targeted { target: "$global".to_string(), key: "version".to_string(), value: json("\"1.0\"") },
    )];
    apply_metadata_pass(&mut evaluated_table, &geom_stmts, &meta_stmts).unwrap();
    let global_data = evaluated_table.regions.get("$global").unwrap();
    assert_eq!(global_data.boxes, None);
    assert_eq!(global_data.metadata.get("version").unwrap().value, json("\"1.0\""));
}

#[test]
fn test_build_dsl_map_excludes_empty_anonymous() {
    let mut evaluated_table = EvaluatedRegionTable::new();
    evaluated_table.set_region_boxes("__anon_0_0".to_string(), Some(vec![([0, 0, 0], [1, 1, 1])]));
    evaluated_table.set_region_boxes("__anon_0_1".to_string(), Some(vec![([2, 2, 2], [3, 3, 3])]));
    evaluated_table
        .add_metadata(
            "__anon_0_1".to_string(),
            "label".to_string(),
            MetadataAssignment { value: json("\"labeled\""), source: SourceLocation::new(0, 2) },
        )
        .unwrap();
    evaluated_table.set_region_boxes("named".to_string(), Some(vec![([4, 4, 4], [5, 5, 5])]));
    let dsl_map = build_dsl_map(evaluated_table);
    assert!(!dsl_map.contains_key("__anon_0_0"));
    assert!(dsl_map.contains_key("__anon_0_1"));
    assert!(dsl_map.contains_key("named"));
}

#[test]
fn metadata_test_no_current_region_error() {
    let mut evaluated_table = EvaluatedRegionTable::new();
    let geom_stmts: Vec<GeomStmt> = vec![];
    let meta_stmts = vec![make_meta_stmt(
        0,
        0,
        MetadataStatement::Current { key: "label".to_string(), value: json("\"orphan\"") },
    )];
    match apply_metadata_pass(&mut evaluated_table, &geom_stmts, &meta_stmts).unwrap_err() {
        ParseError::NoCurrentRegion { source } => {
            assert_eq!(source.tuple_idx, 0);
            assert_eq!(source.stmt_idx, 0);
        }
        _ => panic!("Expected NoCurrentRegion error"),
    }
}

#[test]
fn repeated_assignment_is_idempotent() {
    let mut table = EvaluatedRegionTable::new();
    for i in 0..3 {
        table
            .add_metadata(
                "r".to_string(),
                "k".to_string(),
                MetadataAssignment { value: json("[1, 2]"), source: SourceLocation::new(i, 0) },
            )
            .unwrap();
    }
    let data = table.regions.get("r").unwrap();
    assert_eq!(data.metadata.len(), 1);
    assert_eq!(data.metadata.get("k").unwrap().value, json("[1,2]"));
    assert_eq!(data.metadata.get("k").unwrap().source, SourceLocation::new(0, 0));
}

#[test]
fn suffix_wildcard_fans_out() {
    let mut table = EvaluatedRegionTable::new();
    table.set_region_boxes("core.cpu".to_string(), Some(vec![([0, 0, 0], [1, 1, 1])]));
    table.set_region_boxes("core.gpu".to_string(), Some(vec![([0, 0, 0], [1, 1, 1])]));
    let metas = vec![make_meta_stmt(
        0,
        0,
        MetadataStatement::Targeted { target: "*.cpu".to_string(), key: "k".to_string(), value: json("1") },
    )];
    apply_metadata_pass(&mut table, &[], &metas).unwrap();
    assert!(table.regions.get("core.cpu").unwrap().metadata.contains_key("k"));
    assert!(!table.regions.get("core.gpu").unwrap().metadata.contains_key("k"));
    assert!(table.regions.get("*.cpu").unwrap().metadata.contains_key("k"));
}

#[test]
fn test_parse_current_metadata_string() {
    let mut parser = MetadataParser::new(r#"#doc.label="Patch A""#);
    match parser.parse().unwrap() {
        MetadataStatement::Current { key, value } => {
            assert_eq!(key, "doc.label");
            assert_eq!(value, json("\"Patch A\""));
        }
        _ => panic!("Expected Current metadata"),
    }
}

#[test]
fn test_parse_current_metadata_number() {
    let mut parser = MetadataParser::new("#logic.clock_hz=4");
    match parser.parse().unwrap() {
        MetadataStatement::Current { key, value } => {
            assert_eq!(key, "logic.clock_hz");
            assert_eq!(value, json("4"));
        }
        _ => panic!("Expected Current metadata"),
    }
}

#[test]
fn test_parse_targeted_metadata() {
    let mut parser = MetadataParser::new(r#"#cpu.core:logic.clock_hz=4"#);
    match parser.parse().unwrap() {
        MetadataStatement::Targeted { target, key, value } => {
            assert_eq!(target, "cpu.core");
            assert_eq!(key, "logic.clock_hz");
            assert_eq!(value, json("4"));
        }
        _ => panic!("Expected Targeted metadata"),
    }
}

#[test]
fn test_parse_wildcard_metadata() {
    let mut parser = MetadataParser::new(r#"#cpu.*:power.budget="low""#);
    match parser.parse().unwrap() {
        MetadataStatement::Targeted { target, key, value } => {
            assert_eq!(target, "cpu.*");
            assert_eq!(key, "power.budget");
            assert_eq!(value, json("\"low\""));
        }
        _ => panic!("Expected Targeted metadata"),
    }
}

#[test]
fn test_parse_global_metadata() {
    let mut parser = MetadataParser::new("#$global:io.bus_width=8");
    match parser.parse().unwrap() {
        MetadataStatement::Targeted { target, key, value } => {
            assert_eq!(target, "$global");
            assert_eq!(key, "io.bus_width");
            assert_eq!(value, json("8"));
        }
        _ => panic!("Expected Targeted metadata"),
    }
}

#[test]
fn meta_test_parse_with_whitespace() {
    let mut parser = MetadataParser::new(r#"#  cpu.core  :  logic.clock_hz  =  4  "#);
    match parser.parse().unwrap() {
        MetadataStatement::Targeted { target, key, value } => {
            assert_eq!(target, "cpu.core");
            assert_eq!(key, "logic.clock_hz");
            assert_eq!(value, json("4"));
        }
        _ => panic!("Expected Targeted metadata"),
    }
}

#[test]
fn test_parse_complex_json() {
    let mut parser = MetadataParser::new(r#"#config={"enabled": true, "count": 42}"#);
    match parser.parse().unwrap() {
        MetadataStatement::Current { key, value } => {
            assert_eq!(key, "config");
            assert_eq!(value, json(r#"{"enabled": true, "count": 42}"#));
        }
        _ => panic!("Expected Current metadata"),
    }
}

#[test]
fn test_parse_error_missing_hash() {
    let mut parser = MetadataParser::new("key=value");
    assert!(parser.parse().is_err());
}

#[test]
fn test_parse_error_missing_equals() {
    let mut parser = MetadataParser::new("#key");
    assert!(parser.parse().is_err());
}

#[test]
fn test_parse_error_invalid_json() {
    let mut parser = MetadataParser::new("#key=invalid_json");
    assert!(parser.parse().is_err());
}

#[test]
fn meta_stmt_target_and_kind() {
    let current = make_meta_stmt(0, 0, MetadataStatement::Current { key: "k".to_string(), value: json("1") });
    assert!(current.is_current_region());
    assert_eq!(current.target(), None);
    let targeted = make_meta_stmt(
        0,
        1,
        MetadataStatement::Targeted { target: "$global".to_string(), key: "k".to_string(), value: json("1") },
    );
    assert!(!targeted.is_current_region());
    assert_eq!(targeted.target(), Some("$global"));
}

#[test]
fn current_metadata_needs_key_right_after_hash() {
    let mut parser = MetadataParser::new("#  key=1");
    assert!(parser.parse().is_err());
    let mut parser = MetadataParser::new("# : k=1");
    assert!(matches!(parser.parse(), Err(ParseError::Expected { .. })));
}
