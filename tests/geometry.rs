use insign::{normalize_box, BooleanExpr, GeometryParser, GeometryStatement, ParseError};

#[test]
fn test_parse_simple_rc() {
    let mut parser = GeometryParser::new("@rc([0,1,2],[3,4,5])");
    let result = parser.parse().unwrap();
    match result {
        GeometryStatement::RelativeCoordinate { region, corners } => {
            assert_eq!(region, None);
            assert_eq!(corners, ([0, 1, 2], [3, 4, 5]));
        }
        _ => panic!("Expected RelativeCoordinate"),
    }
}

#[test]
fn test_parse_simple_ac() {
    let mut parser = GeometryParser::new("@ac([10,-5,0],[20,15,10])");
    let result = parser.parse().unwrap();
    match result {
        GeometryStatement::AbsoluteCoordinate { region, corners } => {
            assert_eq!(region, None);
            assert_eq!(corners, ([10, -5, 0], [20, 15, 10]));
        }
        _ => panic!("Expected AbsoluteCoordinate"),
    }
}

#[test]
fn test_parse_named_region() {
    let mut parser = GeometryParser::new("@dataloop=rc([0,0,0],[31,7,15])");
    let result = parser.parse().unwrap();
    match result {
        GeometryStatement::RelativeCoordinate { region, corners } => {
            assert_eq!(region, Some("dataloop".to_string()));
            assert_eq!(corners, ([0, 0, 0], [31, 7, 15]));
        }
        _ => panic!("Expected RelativeCoordinate"),
    }
}

#[test]
fn geom_test_parse_with_whitespace() {
    let mut parser =
        GeometryParser::new("@  region  =  ac(  [ -10 , -20 , -30 ] , [ 10 , 20 , 30 ]  )  ");
    let result = parser.parse().unwrap();
    match result {
        GeometryStatement::AbsoluteCoordinate { region, corners } => {
            assert_eq!(region, Some("region".to_string()));
            assert_eq!(corners, ([-10, -20, -30], [10, 20, 30]));
        }
        _ => panic!("Expected AbsoluteCoordinate"),
    }
}

#[test]
fn test_normalize_box() {
    let box_pair = normalize_box([5, 10, 15], [0, 5, 10]);
    assert_eq!(box_pair, ([0, 5, 10], [5, 10, 15]));
}

#[test]
fn test_to_box_pair_relative() {
    let stmt = GeometryStatement::RelativeCoordinate { region: None, corners: ([0, 0, 0], [3, 2, 1]) };
    let box_pair = stmt.to_box_pair([10, 64, 10]).unwrap();
    assert_eq!(box_pair, ([10, 64, 10], [13, 66, 11]));
}

#[test]
fn test_to_box_pair_absolute() {
    let stmt = GeometryStatement::AbsoluteCoordinate {
        region: None,
        corners: ([100, 70, -20], [104, 72, -18]),
    };
    let box_pair = stmt.to_box_pair([0, 0, 0]).unwrap();
    assert_eq!(box_pair, ([100, 70, -20], [104, 72, -18]));
}

#[test]
fn test_parse_error_missing_at() {
    let mut parser = GeometryParser::new("rc([0,0,0],[1,1,1])");
    assert!(parser.parse().is_err());
}

#[test]
fn test_parse_error_invalid_function() {
    let mut parser = GeometryParser::new("@invalid([0,0,0],[1,1,1])");
    assert!(parser.parse().is_err());
}

#[test]
fn test_parse_error_malformed_vec3() {
    let mut parser = GeometryParser::new("@rc([0,1],[3,4,5])");
    assert!(parser.parse().is_err());
}

#[test]
fn test_parse_error_malformed_integer() {
    let mut parser = GeometryParser::new("@rc([0,not_a_number,2],[3,4,5])");
    assert!(parser.parse().is_err());
}

#[test]
fn test_parse_simple_expression() {
    let mut parser = GeometryParser::new("@core=dataloop");
    match parser.parse().unwrap() {
        GeometryStatement::Expression { region, expr } => {
            assert_eq!(region, "core");
            assert_eq!(expr, BooleanExpr::region_ref("dataloop"));
        }
        _ => panic!("Expected Expression"),
    }
}

#[test]
fn test_parse_union_expression() {
    let mut parser = GeometryParser::new("@core=dataloop.alu+dataloop.registers");
    match parser.parse().unwrap() {
        GeometryStatement::Expression { region, expr } => {
            assert_eq!(region, "core");
            let expected = BooleanExpr::union(
                BooleanExpr::region_ref("dataloop.alu"),
                BooleanExpr::region_ref("dataloop.registers"),
            );
            assert_eq!(expr, expected);
        }
        _ => panic!("Expected Expression"),
    }
}

#[test]
fn test_parse_parenthesized_expression() {
    let mut parser = GeometryParser::new("@result=(a+b)+c");
    match parser.parse().unwrap() {
        GeometryStatement::Expression { region, expr } => {
            assert_eq!(region, "result");
            let expected = BooleanExpr::union(
                BooleanExpr::union(BooleanExpr::region_ref("a"), BooleanExpr::region_ref("b")),
                BooleanExpr::region_ref("c"),
            );
            assert_eq!(expr, expected);
        }
        _ => panic!("Expected Expression"),
    }
}

#[test]
fn test_parse_expression_with_whitespace() {
    let mut parser = GeometryParser::new("@  result  =  ( a + b ) + c  ");
    match parser.parse().unwrap() {
        GeometryStatement::Expression { region, expr } => {
            assert_eq!(region, "result");
            let expected = BooleanExpr::union(
                BooleanExpr::union(BooleanExpr::region_ref("a"), BooleanExpr::region_ref("b")),
                BooleanExpr::region_ref("c"),
            );
            assert_eq!(expr, expected);
        }
        _ => panic!("Expected Expression"),
    }
}

#[test]
fn test_parse_expression_reject_minus() {
    let mut parser = GeometryParser::new("@result=a-b");
    match parser.parse().unwrap_err() {
        ParseError::UnsupportedOperator { operator, .. } => assert_eq!(operator, "-"),
        _ => panic!("Expected UnsupportedOperator error"),
    }
}

#[test]
fn test_parse_expression_reject_and() {
    let mut parser = GeometryParser::new("@result=a&b");
    match parser.parse().unwrap_err() {
        ParseError::UnsupportedOperator { operator, .. } => assert_eq!(operator, "&"),
        _ => panic!("Expected UnsupportedOperator error"),
    }
}

#[test]
fn test_parse_expression_reject_xor() {
    let mut parser = GeometryParser::new("@result=a^b");
    match parser.parse().unwrap_err() {
        ParseError::UnsupportedOperator { operator, .. } => assert_eq!(operator, "^"),
        _ => panic!("Expected UnsupportedOperator error"),
    }
}

#[test]
fn test_parse_error_empty_parens() {
    let mut parser = GeometryParser::new("@result=()");
    assert!(parser.parse().is_err());
}

#[test]
fn test_parse_error_trailing_operator() {
    let mut parser = GeometryParser::new("@result=a+");
    assert!(parser.parse().is_err());
}

#[test]
fn test_parse_region_name_with_rc_substring() {
    let mut parser = GeometryParser::new("@cpu.cache=rc([0,0,0],[1,1,1])");
    match parser.parse().unwrap() {
        GeometryStatement::RelativeCoordinate { region, corners } => {
            assert_eq!(region, Some("cpu.cache".to_string()));
            assert_eq!(corners, ([0, 0, 0], [1, 1, 1]));
        }
        _ => panic!("Expected RelativeCoordinate"),
    }
}

#[test]
fn test_parse_region_name_with_ac_substring() {
    let mut parser = GeometryParser::new("@cpu.cache=ac([0,0,0],[1,1,1])");
    match parser.parse().unwrap() {
        GeometryStatement::AbsoluteCoordinate { region, corners } => {
            assert_eq!(region, Some("cpu.cache".to_string()));
            assert_eq!(corners, ([0, 0, 0], [1, 1, 1]));
        }
        _ => panic!("Expected AbsoluteCoordinate"),
    }
}

#[test]
fn boolean_operators_follow_precedence_when_enabled() {
    let mut parser = GeometryParser::with_boolean_ops("@r=a+b&c-d^e", true);
    match parser.parse().unwrap() {
        GeometryStatement::Expression { expr, .. } => {
            let r = BooleanExpr::region_ref;
            let expected = BooleanExpr::xor(
                BooleanExpr::difference(
                    BooleanExpr::union(r("a"), BooleanExpr::intersection(r("b"), r("c"))),
                    r("d"),
                ),
                r("e"),
            );
            assert_eq!(expr, expected);
        }
        _ => panic!("Expected Expression"),
    }
}

#[test]
fn integer_limits_are_checked() {
    let mut ok = GeometryParser::new("@ac([-2147483648,0,2147483647],[0,0,0])");
    match ok.parse().unwrap() {
        GeometryStatement::AbsoluteCoordinate { corners, .. } => {
            assert_eq!(corners.0, [i32::MIN, 0, i32::MAX]);
        }
        _ => panic!("Expected AbsoluteCoordinate"),
    }
    let mut too_big = GeometryParser::new("@ac([2147483648,0,0],[0,0,0])");
    assert!(matches!(too_big.parse(), Err(ParseError::InvalidInteger { .. })));
    let mut too_small = GeometryParser::new("@ac([-2147483649,0,0],[0,0,0])");
    assert!(matches!(too_small.parse(), Err(ParseError::InvalidInteger { .. })));
}

#[test]
fn relative_box_overflow_is_detected() {
    let stmt = GeometryStatement::RelativeCoordinate { region: None, corners: ([i32::MAX, 0, 0], [0, 0, 0]) };
    assert!(!stmt.box_fits([1, 0, 0]));
    assert!(stmt.box_fits([0, 0, 0]));
}

#[test]
fn region_name_must_be_an_identifier() {
    let mut parser = GeometryParser::new("@a b=rc([0,0,0],[1,1,1])");
    assert!(matches!(parser.parse(), Err(ParseError::Expected { .. })));
    let mut parser = GeometryParser::new("@ a.b_1 =rc([0,0,0],[1,1,1])");
    assert!(parser.parse().is_ok());
}

#[test]
fn unsupported_operator_position() {
    let mut parser = GeometryParser::new("@r = a + b - c");
    match parser.parse().unwrap_err() {
        ParseError::UnsupportedOperator { operator, position } => {
            assert_eq!(operator, "-");
            assert_eq!(position, 11);
        }
        other => panic!("unexpected {:?}", other),
    }
}
