use insign::{
    assemble_region_table, check_boxes_bounds, evaluate_geometry, evaluate_region_boxes,
    BooleanExpr, GeomStmt, GeometryStatement, ParseError, RegionEntry, RegionTable, SourceLocation,
};

fn make_geom_stmt(tuple_idx: usize, stmt_idx: usize, statement: GeometryStatement) -> GeomStmt {
    GeomStmt::new(tuple_idx, stmt_idx, statement)
}

fn make_rc(region: Option<String>, corners: ([i32; 3], [i32; 3])) -> GeometryStatement {
    GeometryStatement::RelativeCoordinate { region, corners }
}

fn make_ac(region: Option<String>, corners: ([i32; 3], [i32; 3])) -> GeometryStatement {
    GeometryStatement::AbsoluteCoordinate { region, corners }
}

fn make_expr(region: String, expr: BooleanExpr) -> GeometryStatement {
    GeometryStatement::Expression { region, expr }
}

fn make_test_table() -> RegionTable {
    let mut table = RegionTable::new();
    table.regions.insert(
        "base".to_string(),
        RegionEntry::Accumulator {
            boxes: vec![([0, 0, 0], [1, 1, 1]), ([2, 2, 2], [3, 3, 3])],
            sources: vec![SourceLocation::new(0, 0), SourceLocation::new(0, 1)],
        },
    );
    table.regions.insert(
        "ext".to_string(),
        RegionEntry::Accumulator {
            boxes: vec![([10, 10, 10], [11, 11, 11])],
            sources: vec![SourceLocation::new(1, 0)],
        },
    );
    table.regions.insert(
        "combined".to_string(),
        RegionEntry::Defined {
            expr: BooleanExpr::Union(
                Box::new(BooleanExpr::RegionRef("base".to_string())),
                Box::new(BooleanExpr::RegionRef("ext".to_string())),
            ),
            source: SourceLocation::new(1, 1),
        },
    );
    table.regions.insert(
        "__anon_0_2".to_string(),
        RegionEntry::Anonymous { box_pair: ([5, 5, 5], [6, 6, 6]), source: SourceLocation::new(0, 2) },
    );
    table
}

#[test]
fn test_evaluate_accumulator_region() {
    let table = make_test_table();
    let boxes = evaluate_region_boxes(&table, "base").unwrap();
    assert_eq!(boxes.len(), 2);
    assert_eq!(boxes[0], ([0, 0, 0], [1, 1, 1]));
    assert_eq!(boxes[1], ([2, 2, 2], [3, 3, 3]));
}

#[test]
fn test_evaluate_anonymous_region() {
    let table = make_test_table();
    let boxes = evaluate_region_boxes(&table, "__anon_0_2").unwrap();
    assert_eq!(boxes.len(), 1);
    assert_eq!(boxes[0], ([5, 5, 5], [6, 6, 6]));
}

#[test]
fn test_evaluate_union_expression() {
    let table = make_test_table();
    let boxes = evaluate_region_boxes(&table, "combined").unwrap();
    assert_eq!(boxes.len(), 3);
    assert_eq!(boxes[0], ([0, 0, 0], [1, 1, 1]));
    assert_eq!(boxes[1], ([2, 2, 2], [3, 3, 3]));
    assert_eq!(boxes[2], ([10, 10, 10], [11, 11, 11]));
}

#[test]
fn test_evaluate_unknown_region_error() {
    let table = make_test_table();
    match evaluate_region_boxes(&table, "nonexistent").unwrap_err() {
        ParseError::UnknownRegion { region, .. } => assert_eq!(region, "nonexistent"),
        _ => panic!("Expected UnknownRegion error"),
    }
}

#[test]
fn test_self_reference_error() {
    let mut table = RegionTable::new();
    table.regions.insert(
        "self_ref".to_string(),
        RegionEntry::Defined {
            expr: BooleanExpr::RegionRef("self_ref".to_string()),
            source: SourceLocation::new(0, 0),
        },
    );
    match evaluate_region_boxes(&table, "self_ref").unwrap_err() {
        ParseError::SelfReference { region, .. } => assert_eq!(region, "self_ref"),
        _ => panic!("Expected SelfReference error"),
    }
}

#[test]
fn test_cycle_detection() {
    let mut table = RegionTable::new();
    table.regions.insert(
        "a".to_string(),
        RegionEntry::Defined { expr: BooleanExpr::RegionRef("b".to_string()), source: SourceLocation::new(0, 0) },
    );
    table.regions.insert(
        "b".to_string(),
        RegionEntry::Defined { expr: BooleanExpr::RegionRef("a".to_string()), source: SourceLocation::new(0, 1) },
    );
    match evaluate_region_boxes(&table, "a").unwrap_err() {
        ParseError::CycleDetected { cycle } => {
            assert!(cycle.contains(&"a".to_string()));
            assert_eq!(cycle, vec!["a".to_string(), "b".to_string()]);
        }
        _ => panic!("Expected CycleDetected error"),
    }
}

#[test]
fn test_evaluate_all_regions() {
    let table = make_test_table();
    let results = evaluate_geometry(&table).unwrap();
    assert_eq!(results.len(), 4);
    assert_eq!(results.get("base").unwrap().len(), 2);
    assert_eq!(results.get("ext").unwrap().len(), 1);
    assert_eq!(results.get("combined").unwrap().len(), 3);
    assert_eq!(results.get("__anon_0_2").unwrap().len(), 1);
}

#[test]
fn test_coordinate_bounds_checking() {
    let boxes = vec![([i32::MAX, 0, 0], [i32::MAX, 1, 1])];
    assert!(check_boxes_bounds(&boxes).is_err());
}

#[test]
fn test_valid_coordinate_bounds() {
    let boxes = vec![([0, 0, 0], [1000, 1000, 1000]), ([-1000, -1000, -1000], [0, 0, 0])];
    assert!(check_boxes_bounds(&boxes).is_ok());
}

#[test]
fn test_accumulate_multiple_boxes() {
    let mut table = RegionTable::new();
    let stmt1 = make_geom_stmt(0, 0, make_rc(Some("test".to_string()), ([0, 0, 0], [1, 1, 1])));
    table.add_geometry(&stmt1, [10, 20, 30]).unwrap();
    let stmt2 = make_geom_stmt(0, 1, make_ac(Some("test".to_string()), ([5, 5, 5], [6, 6, 6])));
    table.add_geometry(&stmt2, [0, 0, 0]).unwrap();
    assert_eq!(table.regions.len(), 1);
    match table.regions.get("test").unwrap() {
        RegionEntry::Accumulator { boxes, sources } => {
            assert_eq!(boxes.len(), 2);
            assert_eq!(sources.len(), 2);
            assert_eq!(boxes[0], ([10, 20, 30], [11, 21, 31]));
            assert_eq!(boxes[1], ([5, 5, 5], [6, 6, 6]));
            assert_eq!(sources[0], SourceLocation::new(0, 0));
            assert_eq!(sources[1], SourceLocation::new(0, 1));
        }
        _ => panic!("Expected accumulator region"),
    }
}

#[test]
fn test_mixed_region_mode_error() {
    let mut table = RegionTable::new();
    let stmt1 = make_geom_stmt(0, 0, make_rc(Some("test".to_string()), ([0, 0, 0], [1, 1, 1])));
    table.add_geometry(&stmt1, [0, 0, 0]).unwrap();
    let stmt2 = make_geom_stmt(1, 0, make_expr("test".to_string(), BooleanExpr::RegionRef("other".to_string())));
    match table.add_geometry(&stmt2, [0, 0, 0]).unwrap_err() {
        ParseError::MixedRegionMode { region, accumulator_sources, defined_source } => {
            assert_eq!(region, "test");
            assert_eq!(accumulator_sources.len(), 1);
            assert_eq!(accumulator_sources[0], SourceLocation::new(0, 0));
            assert_eq!(defined_source, SourceLocation::new(1, 0));
        }
        _ => panic!("Expected MixedRegionMode error"),
    }
}

#[test]
fn test_mixed_region_mode_reverse_order() {
    let mut table = RegionTable::new();
    let stmt1 = make_geom_stmt(0, 0, make_expr("test".to_string(), BooleanExpr::RegionRef("other".to_string())));
    table.add_geometry(&stmt1, [0, 0, 0]).unwrap();
    let stmt2 = make_geom_stmt(1, 0, make_rc(Some("test".to_string()), ([0, 0, 0], [1, 1, 1])));
    match table.add_geometry(&stmt2, [0, 0, 0]).unwrap_err() {
        ParseError::MixedRegionMode { region, accumulator_sources, defined_source } => {
            assert_eq!(region, "test");
            assert_eq!(accumulator_sources.len(), 1);
            assert_eq!(accumulator_sources[0], SourceLocation::new(1, 0));
            assert_eq!(defined_source, SourceLocation::new(0, 0));
        }
        _ => panic!("Expected MixedRegionMode error"),
    }
}

#[test]
fn test_anonymous_region_stability() {
    let mut table = RegionTable::new();
    let stmt1 = make_geom_stmt(0, 0, make_rc(None, ([0, 0, 0], [1, 1, 1])));
    let stmt2 = make_geom_stmt(0, 1, make_ac(None, ([5, 5, 5], [6, 6, 6])));
    let stmt3 = make_geom_stmt(1, 0, make_rc(None, ([10, 10, 10], [11, 11, 11])));
    table.add_geometry(&stmt1, [0, 0, 0]).unwrap();
    table.add_geometry(&stmt2, [0, 0, 0]).unwrap();
    table.add_geometry(&stmt3, [0, 0, 0]).unwrap();
    assert_eq!(table.regions.len(), 3);
    let keys = table.regions.keys();
    assert!(keys.contains(&"__anon_0_0".to_string()));
    assert!(keys.contains(&"__anon_0_1".to_string()));
    assert!(keys.contains(&"__anon_1_0".to_string()));
    match table.regions.get("__anon_0_0").unwrap() {
        RegionEntry::Anonymous { box_pair, source } => {
            assert_eq!(*box_pair, ([0, 0, 0], [1, 1, 1]));
            assert_eq!(*source, SourceLocation::new(0, 0));
        }
        _ => panic!("Expected anonymous region"),
    }
    match table.regions.get("__anon_0_1").unwrap() {
        RegionEntry::Anonymous { box_pair, source } => {
            assert_eq!(*box_pair, ([5, 5, 5], [6, 6, 6]));
            assert_eq!(*source, SourceLocation::new(0, 1));
        }
        _ => panic!("Expected anonymous region"),
    }
    match table.regions.get("__anon_1_0").unwrap() {
        RegionEntry::Anonymous { box_pair, source } => {
            assert_eq!(*box_pair, ([10, 10, 10], [11, 11, 11]));
            assert_eq!(*source, SourceLocation::new(1, 0));
        }
        _ => panic!("Expected anonymous region"),
    }
}

#[test]
fn test_assemble_region_table() {
    let units = vec![
        ([10, 20, 30], "@test=rc([0,0,0],[1,1,1])".to_string()),
        ([5, 10, 15], "@ac([0,0,0],[2,2,2])".to_string()),
    ];
    let geom_stmts = vec![
        make_geom_stmt(0, 0, make_rc(Some("test".to_string()), ([0, 0, 0], [1, 1, 1]))),
        make_geom_stmt(1, 0, make_ac(None, ([0, 0, 0], [2, 2, 2]))),
    ];
    let table = assemble_region_table(&geom_stmts, &units).unwrap();
    assert_eq!(table.regions.len(), 2);
    match table.regions.get("test").unwrap() {
        RegionEntry::Accumulator { boxes, .. } => {
            assert_eq!(boxes.len(), 1);
            assert_eq!(boxes[0], ([10, 20, 30], [11, 21, 31]));
        }
        _ => panic!("Expected accumulator region"),
    }
    match table.regions.get("__anon_1_0").unwrap() {
        RegionEntry::Anonymous { box_pair, .. } => assert_eq!(*box_pair, ([0, 0, 0], [2, 2, 2])),
        _ => panic!("Expected anonymous region"),
    }
}

#[test]
fn test_duplicate_region_definition() {
    let mut table = RegionTable::new();
    let stmt1 = make_geom_stmt(0, 0, make_expr("test".to_string(), BooleanExpr::RegionRef("other1".to_string())));
    table.add_geometry(&stmt1, [0, 0, 0]).unwrap();
    let stmt2 = make_geom_stmt(1, 0, make_expr("test".to_string(), BooleanExpr::RegionRef("other2".to_string())));
    match table.add_geometry(&stmt2, [0, 0, 0]).unwrap_err() {
        ParseError::DuplicateRegionDefinition { region, first_source, duplicate_source } => {
            assert_eq!(region, "test");
            assert_eq!(first_source, SourceLocation::new(0, 0));
            assert_eq!(duplicate_source, SourceLocation::new(1, 0));
        }
        _ => panic!("Expected DuplicateRegionDefinition error"),
    }
}

#[test]
fn anonymous_key_format() {
    let stmt = make_geom_stmt(12, 305, make_rc(None, ([0, 0, 0], [1, 1, 1])));
    assert_eq!(stmt.anonymous_key(), "__anon_12_305");
    assert!(stmt.is_anonymous());
}

#[test]
fn overflowing_anchor_is_an_internal_error() {
    let mut table = RegionTable::new();
    let stmt = make_geom_stmt(0, 0, make_rc(None, ([i32::MAX, 0, 0], [0, 0, 0])));
    assert!(matches!(table.add_geometry(&stmt, [1, 0, 0]), Err(ParseError::Internal { .. })));
}

#[test]
fn region_refs_in_order() {
    let e = BooleanExpr::union(
        BooleanExpr::difference(BooleanExpr::region_ref("a"), BooleanExpr::region_ref("b.c")),
        BooleanExpr::region_ref("a"),
    );
    assert_eq!(e.region_refs(), vec!["a".to_string(), "b.c".to_string(), "a".to_string()]);
}

#[test]
fn entry_sources() {
    let acc = RegionEntry::Accumulator {
        boxes: vec![([0, 0, 0], [1, 1, 1]), ([0, 0, 0], [1, 1, 1])],
        sources: vec![SourceLocation::new(0, 1), SourceLocation::new(2, 3)],
    };
    assert_eq!(acc.sources(), vec![SourceLocation::new(0, 1), SourceLocation::new(2, 3)]);
    let def = RegionEntry::Defined { expr: BooleanExpr::region_ref("x"), source: SourceLocation::new(4, 5) };
    assert_eq!(def.sources(), vec![SourceLocation::new(4, 5)]);
}
