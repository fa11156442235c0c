use insign::{filter_comments, split_statements};

#[test]
fn test_single_statement() {
    let input = "@rc([0,1,2],[3,4,5])";
    let statements = split_statements(input);
    assert_eq!(statements.len(), 1);
    assert_eq!(statements[0].text, input);
    assert_eq!(statements[0].start, 0);
    assert_eq!(statements[0].end, input.len());
}

#[test]
fn test_multiple_statements() {
    let input = "@rc([0,1,2],[3,4,5])\n#key=\"value\"";
    let statements = split_statements(input);
    assert_eq!(statements.len(), 2);
    assert_eq!(statements[0].text, "@rc([0,1,2],[3,4,5])\n");
    assert_eq!(statements[1].text, "#key=\"value\"");
}

#[test]
fn test_nested_brackets() {
    let input = "@region=rc([0,0,0],[1,1,1])+ac([2,2,2],[3,3,3])";
    let statements = split_statements(input);
    assert_eq!(statements.len(), 1);
    assert_eq!(statements[0].text, input);
}

#[test]
fn test_multiline_statement() {
    let input = "@dataloop.registers=rc([2,64,2],\n                       [12,69,6])\n                    + rc([14,64,2],\n                         [24,69,6])";
    let statements = split_statements(input);
    assert_eq!(statements.len(), 1);
    assert_eq!(statements[0].text, input);
}

#[test]
fn test_json_strings_with_at_hash() {
    let input = "#doc.note=\"Contains @ and # symbols\"\n@rc([0,0,0],[1,1,1])";
    let statements = split_statements(input);
    assert_eq!(statements.len(), 2);
    assert_eq!(statements[0].text, "#doc.note=\"Contains @ and # symbols\"\n");
    assert_eq!(statements[1].text, "@rc([0,0,0],[1,1,1])");
}

#[test]
fn test_mixed_geometry_metadata() {
    let input = "@cpu.core=ac([100,70,-20],[104,72,-18])\n#cpu.core:logic.clock_hz=4\n#cpu.*:power.budget=\"low\"";
    let statements = split_statements(input);
    assert_eq!(statements.len(), 3);
    assert_eq!(statements[0].text, "@cpu.core=ac([100,70,-20],[104,72,-18])\n");
    assert_eq!(statements[1].text, "#cpu.core:logic.clock_hz=4\n");
    assert_eq!(statements[2].text, "#cpu.*:power.budget=\"low\"");
}

#[test]
fn test_escaped_quotes_in_json() {
    let input = "#doc.label=\"Quote: \\\"Hello World\\\"\"\n@rc([0,0,0],[1,1,1])";
    let statements = split_statements(input);
    assert_eq!(statements.len(), 2);
    assert_eq!(statements[0].text, "#doc.label=\"Quote: \\\"Hello World\\\"\"\n");
    assert_eq!(statements[1].text, "@rc([0,0,0],[1,1,1])");
}

#[test]
fn test_empty_input() {
    let statements = split_statements("");
    assert_eq!(statements.len(), 0);
}

#[test]
fn test_filter_comments_simple() {
    let input = "; This is a comment\n@rc([0,0,0],[1,1,1])\n; Another comment";
    let filtered = filter_comments(input);
    assert_eq!(filtered, "\n@rc([0,0,0],[1,1,1])\n");
}

#[test]
fn test_filter_comments_with_whitespace() {
    let input = "  ; Indented comment\n@rc([0,0,0],[1,1,1])\n\t; Tab comment";
    let filtered = filter_comments(input);
    assert_eq!(filtered, "\n@rc([0,0,0],[1,1,1])\n");
}

#[test]
fn test_filter_comments_mixed_with_statements() {
    let input = "; Comment at start\n@rc([1,1,1],[2,2,2])\n; Middle comment\n#doc.label=\"test\"\n; End comment";
    let filtered = filter_comments(input);
    assert_eq!(filtered, "\n@rc([1,1,1],[2,2,2])\n\n#doc.label=\"test\"\n");
}

#[test]
fn test_statements_with_comments_filtered() {
    let input = "; This is a comment\n@rc([0,0,0],[1,1,1])\n; Another comment\n#key=\"value\"";
    let filtered = filter_comments(input);
    let statements = split_statements(&filtered);
    assert_eq!(statements.len(), 3);
    assert!(statements[0].text.trim().is_empty());
    assert!(statements[1].text.trim().contains("@rc([0,0,0],[1,1,1])"));
    assert!(statements[2].text.trim().contains("#key=\"value\""));
}

#[test]
fn test_comment_in_json_string_not_filtered() {
    let input = "#doc.note=\"This ; is not a comment\"";
    let filtered = filter_comments(input);
    assert_eq!(filtered, input);
    let statements = split_statements(&filtered);
    assert_eq!(statements.len(), 1);
    assert_eq!(statements[0].text, input);
}

#[test]
fn test_empty_comment_lines() {
    let input = ";\n@rc([0,0,0],[1,1,1])\n;   \n#key=\"value\"";
    let filtered = filter_comments(input);
    let statements = split_statements(&filtered);
    assert_eq!(statements.len(), 3);
    assert!(statements[0].text.trim().is_empty());
    assert!(statements[1].text.trim().contains("@rc([0,0,0],[1,1,1])"));
    assert!(statements[2].text.trim().contains("#key=\"value\""));
}

#[test]
fn test_comment_only_input() {
    let input = "; Just a comment\n; Another comment\n; Third comment";
    let filtered = filter_comments(input);
    let statements = split_statements(&filtered);
    assert_eq!(statements.len(), 1);
    assert!(statements[0].text.trim().is_empty());
}

#[test]
fn test_no_slice_overlaps_full_coverage() {
    let input = "@rc([0,0,0],[1,1,1])\n#key=\"value\"\n@another=rc([2,2,2],[3,3,3])";
    let statements = split_statements(input);
    let mut covered_bytes = vec![false; input.len()];
    for stmt in &statements {
        for i in stmt.start..stmt.end {
            assert!(!covered_bytes[i], "Byte {} covered by multiple statements", i);
            covered_bytes[i] = true;
        }
    }
    for (i, &covered) in covered_bytes.iter().enumerate() {
        assert!(covered, "Byte {} not covered by any statement", i);
    }
}

#[test]
fn slices_tile_input_with_multibyte_text() {
    let input = "#note=\"caf\u{e9} @ \u{1F600}\"\n@rc([0,0,0],[1,1,1])#k=\"\u{e9}\"";
    let statements = split_statements(input);
    assert_eq!(statements.len(), 3);
    let joined: String = statements.iter().map(|s| s.text.clone()).collect();
    assert_eq!(joined, input);
    assert_eq!(statements[0].start, 0);
    for w in statements.windows(2) {
        assert_eq!(w[0].end, w[1].start);
    }
    assert_eq!(statements[2].end, input.len());
    for s in &statements {
        assert_eq!(&input[s.start..s.end], s.text);
    }
}

#[test]
fn comment_stripping_keeps_every_line_break() {
    assert_eq!(filter_comments("a\r\n;c\r\nb"), "a\r\n\nb");
    assert_eq!(filter_comments(""), "");
    assert_eq!(filter_comments("x\n"), "x\n");
    assert_eq!(filter_comments("x\n; c\n"), "x\n\n");
    assert_eq!(filter_comments("\n\n"), "\n\n");
}
