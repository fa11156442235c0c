use insign::compile_with_boolean_ops as compile;

fn boxes(map: &insign::DslMap, region: &str) -> Vec<([i32; 3], [i32; 3])> {
    map.get(region).unwrap().bounding_boxes.clone().unwrap()
}

#[test]
fn test_difference_operation_simple() {
    let units = vec![
        ([0, 0, 0], "@base=rc([0,0,0],[4,4,4])".to_string()),
        ([0, 0, 0], "@hole=rc([1,1,1],[3,3,3])".to_string()),
        ([0, 0, 0], "@result=base-hole".to_string()),
    ];
    let dsl_map = compile(&units).unwrap();
    assert!(dsl_map.contains_key("result"));
    let b = boxes(&dsl_map, "result");
    assert!(!b.is_empty());
    assert!(b.len() > 1);
    assert_eq!(
        b,
        vec![
            ([0, 0, 0], [0, 4, 4]),
            ([4, 0, 0], [4, 4, 4]),
            ([1, 0, 0], [3, 0, 4]),
            ([1, 4, 0], [3, 4, 4]),
            ([1, 1, 0], [3, 3, 0]),
            ([1, 1, 4], [3, 3, 4]),
        ]
    );
}

#[test]
fn test_intersection_operation_simple() {
    let units = vec![
        ([0, 0, 0], "@box1=rc([0,0,0],[4,4,4])".to_string()),
        ([0, 0, 0], "@box2=rc([2,2,2],[6,6,6])".to_string()),
        ([0, 0, 0], "@result=box1&box2".to_string()),
    ];
    let dsl_map = compile(&units).unwrap();
    let b = boxes(&dsl_map, "result");
    assert_eq!(b.len(), 1);
    assert_eq!(b[0], ([2, 2, 2], [4, 4, 4]));
}

#[test]
fn test_xor_operation_simple() {
    let units = vec![
        ([0, 0, 0], "@box1=rc([0,0,0],[3,3,3])".to_string()),
        ([0, 0, 0], "@box2=rc([1,1,1],[4,4,4])".to_string()),
        ([0, 0, 0], "@result=box1^box2".to_string()),
    ];
    let dsl_map = compile(&units).unwrap();
    assert!(boxes(&dsl_map, "result").len() > 1);
}

#[test]
fn test_operator_precedence() {
    let units = vec![
        ([0, 0, 0], "@a=rc([0,0,0],[1,1,1])".to_string()),
        ([0, 0, 0], "@b=rc([2,2,2],[3,3,3])".to_string()),
        ([0, 0, 0], "@c=rc([2,2,2],[4,4,4])".to_string()),
        ([0, 0, 0], "@d=rc([0,0,0],[0,0,0])".to_string()),
        ([0, 0, 0], "@e=rc([5,5,5],[6,6,6])".to_string()),
        ([0, 0, 0], "@result=a+b&c-d^e".to_string()),
    ];
    let dsl_map = compile(&units).unwrap();
    assert!(dsl_map.contains_key("result"));
    assert!(dsl_map.get("result").unwrap().bounding_boxes.is_some());
}

#[test]
fn test_parentheses_override_precedence() {
    let units = vec![
        ([0, 0, 0], "@a=rc([0,0,0],[1,1,1])".to_string()),
        ([0, 0, 0], "@b=rc([3,3,3],[6,6,6])".to_string()),
        ([0, 0, 0], "@c=rc([0,0,0],[4,4,4])".to_string()),
        ([0, 0, 0], "@result1=a+b&c".to_string()),
        ([0, 0, 0], "@result2=(a+b)&c".to_string()),
    ];
    let dsl_map = compile(&units).unwrap();
    let r1 = boxes(&dsl_map, "result1");
    let r2 = boxes(&dsl_map, "result2");
    assert_eq!(r1.len(), 2);
    assert_eq!(r2.len(), 2);
    assert!(r1.contains(&([0, 0, 0], [1, 1, 1])));
    assert!(r2.contains(&([0, 0, 0], [1, 1, 1])));
    assert!(r1.contains(&([3, 3, 3], [4, 4, 4])));
    assert!(r2.contains(&([3, 3, 3], [4, 4, 4])));
}

#[test]
fn test_complex_boolean_expression() {
    let units = vec![
        ([0, 0, 0], "@base=rc([0,0,0],[10,10,10])".to_string()),
        ([0, 0, 0], "@cut1=rc([2,2,2],[4,4,4])".to_string()),
        ([0, 0, 0], "@cut2=rc([6,6,6],[8,8,8])".to_string()),
        ([0, 0, 0], "@add=rc([5,5,5],[7,7,7])".to_string()),
        ([0, 0, 0], "@result=base-cut1+add&base-cut2".to_string()),
    ];
    let dsl_map = compile(&units).unwrap();
    assert!(!boxes(&dsl_map, "result").is_empty());
}

#[test]
fn test_no_intersection_result() {
    let units = vec![
        ([0, 0, 0], "@box1=rc([0,0,0],[1,1,1])".to_string()),
        ([0, 0, 0], "@box2=rc([5,5,5],[6,6,6])".to_string()),
        ([0, 0, 0], "@result=box1&box2".to_string()),
    ];
    let dsl_map = compile(&units).unwrap();
    assert_eq!(boxes(&dsl_map, "result").len(), 0);
}

#[test]
fn test_difference_no_overlap() {
    let units = vec![
        ([0, 0, 0], "@base=rc([0,0,0],[2,2,2])".to_string()),
        ([0, 0, 0], "@subtract=rc([5,5,5],[6,6,6])".to_string()),
        ([0, 0, 0], "@result=base-subtract".to_string()),
    ];
    let dsl_map = compile(&units).unwrap();
    let b = boxes(&dsl_map, "result");
    assert_eq!(b.len(), 1);
    assert_eq!(b[0], ([0, 0, 0], [2, 2, 2]));
}

#[test]
fn test_difference_complete_subtraction() {
    let units = vec![
        ([0, 0, 0], "@small=rc([1,1,1],[2,2,2])".to_string()),
        ([0, 0, 0], "@large=rc([0,0,0],[3,3,3])".to_string()),
        ([0, 0, 0], "@result=small-large".to_string()),
    ];
    let dsl_map = compile(&units).unwrap();
    assert_eq!(boxes(&dsl_map, "result").len(), 0);
}

#[test]
fn test_multiple_operators_associativity() {
    let units = vec![
        ([0, 0, 0], "@a=rc([0,0,0],[4,4,4])".to_string()),
        ([0, 0, 0], "@b=rc([1,1,1],[2,2,2])".to_string()),
        ([0, 0, 0], "@c=rc([3,3,3],[3,3,3])".to_string()),
        ([0, 0, 0], "@result1=a-b-c".to_string()),
        ([0, 0, 0], "@result2=(a-b)-c".to_string()),
    ];
    let dsl_map = compile(&units).unwrap();
    assert_eq!(boxes(&dsl_map, "result1"), boxes(&dsl_map, "result2"));
}

#[test]
fn test_performance_with_many_boxes() {
    let mut units = Vec::new();
    units.push(([0, 0, 0], "@base=rc([0,0,0],[1,1,1])".to_string()));
    for i in 1..20 {
        units.push(([0, 0, 0], format!("@base=rc([{},{},{}],[{},{},{}])", i, i, i, i + 1, i + 1, i + 1)));
    }
    units.push(([0, 0, 0], "@other=rc([5,5,5],[6,6,6])".to_string()));
    for i in 6..15 {
        units.push(([0, 0, 0], format!("@other=rc([{},{},{}],[{},{},{}])", i, i, i, i + 1, i + 1, i + 1)));
    }
    units.push(([0, 0, 0], "@result=base&other".to_string()));
    let dsl_map = compile(&units).unwrap();
    assert!(dsl_map.contains_key("result"));
}

#[test]
fn test_chained_operations() {
    let units = vec![
        ([0, 0, 0], "@a=rc([0,0,0],[3,3,3])".to_string()),
        ([0, 0, 0], "@b=rc([1,1,1],[4,4,4])".to_string()),
        ([0, 0, 0], "@c=rc([2,2,2],[5,5,5])".to_string()),
        ([0, 0, 0], "@step1=a+b".to_string()),
        ([0, 0, 0], "@step2=step1&c".to_string()),
        ([0, 0, 0], "@step3=step2-a".to_string()),
        ([0, 0, 0], "@final=step3^b".to_string()),
    ];
    let dsl_map = compile(&units).unwrap();
    for region in ["step1", "step2", "step3", "final"] {
        assert!(dsl_map.contains_key(region), "Missing region: {}", region);
        assert!(dsl_map.get(region).unwrap().bounding_boxes.is_some());
    }
}

#[test]
fn extreme_coordinate_reaching_an_operator_is_internal_error() {
    let units = vec![
        ([0, 0, 0], "@a=ac([2147483647,0,0],[0,0,0])".to_string()),
        ([0, 0, 0], "@b=ac([0,0,0],[1,1,1])".to_string()),
        ([0, 0, 0], "@r=a+b".to_string()),
    ];
    assert!(matches!(
        compile(&units),
        Err(insign::Error::Parser(insign::ParseError::Internal { .. }))
    ));
}

#[test]
fn disjoint_boxes_have_empty_intersection() {
    let units = vec![
        ([0, 0, 0], "@a=ac([0,0,0],[1,1,1])".to_string()),
        ([0, 0, 0], "@b=ac([2,0,0],[3,1,1])".to_string()),
        ([0, 0, 0], "@r=a&b".to_string()),
    ];
    let dsl_map = compile(&units).unwrap();
    assert!(boxes(&dsl_map, "r").is_empty());
}

#[test]
fn union_grouping_gives_same_boxes() {
    let units = vec![
        ([0, 0, 0], "@a=ac([0,0,0],[1,1,1])".to_string()),
        ([0, 0, 0], "@b=ac([2,0,0],[3,1,1])".to_string()),
        ([0, 0, 0], "@c=ac([5,0,0],[6,1,1])".to_string()),
        ([0, 0, 0], "@l=(a+b)+c".to_string()),
        ([0, 0, 0], "@r=a+(b+c)".to_string()),
    ];
    let dsl_map = compile(&units).unwrap();
    assert_eq!(boxes(&dsl_map, "l"), boxes(&dsl_map, "r"));
    assert_eq!(boxes(&dsl_map, "l").len(), 3);
}

#[test]
fn self_reference_is_reported() {
    let units = vec![([0, 0, 0], "@a=a+a".to_string())];
    assert!(matches!(
        compile(&units),
        Err(insign::Error::Parser(insign::ParseError::SelfReference { .. }))
    ));
}

#[test]
fn output_boxes_are_normalized() {
    let units = vec![
        ([3, -2, 7], "@a=rc([5,5,5],[-5,-5,-5])".to_string()),
        ([0, 0, 0], "@b=ac([1,9,1],[-1,-9,-1])".to_string()),
        ([0, 0, 0], "@r=a^b".to_string()),
    ];
    let dsl_map = compile(&units).unwrap();
    for key in dsl_map.keys() {
        if let Some(bs) = &dsl_map.get(&key).unwrap().bounding_boxes {
            for (lo, hi) in bs {
                for i in 0..3 {
                    assert!(lo[i] <= hi[i]);
                }
            }
        }
    }
    assert_eq!(boxes(&dsl_map, "a"), vec![([-2, -7, 2], [8, 3, 12])]);
}

#[test]
fn deterministic_output() {
    let units = vec![
        ([0, 0, 0], "@z=ac([0,0,0],[1,1,1])\n#k={\"b\":1,\"a\":2}".to_string()),
        ([0, 0, 0], "@a=ac([0,0,0],[1,1,1])".to_string()),
        ([0, 0, 0], "#*.x:k=1".to_string()),
    ];
    let first = compile(&units).unwrap();
    let second = compile(&units).unwrap();
    assert_eq!(first, second);
    assert_eq!(first.keys(), vec!["*.x", "a", "z"]);
}
