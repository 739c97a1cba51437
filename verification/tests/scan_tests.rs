use php_hound::lines::{split_into_lines, trim_bytes};
use php_hound::scan::{rule_label, scan_content, RuleKind};

#[test]
fn split_handles_line_feeds_and_carriage_returns() {
    let lines = split_into_lines(b"a\nb\r\nc");
    assert_eq!(lines, vec![b"a".to_vec(), b"b".to_vec(), b"c".to_vec()]);
}

#[test]
fn split_keeps_no_empty_final_line() {
    let lines = split_into_lines(b"a\nb\n");
    assert_eq!(lines, vec![b"a".to_vec(), b"b".to_vec()]);
}

#[test]
fn split_of_empty_content_is_empty() {
    let lines = split_into_lines(b"");
    assert!(lines.is_empty());
}

#[test]
fn split_keeps_a_lone_carriage_return_at_the_end() {
    let lines = split_into_lines(b"a\r");
    assert_eq!(lines, vec![b"a\r".to_vec()]);
}

#[test]
fn trim_removes_whitespace_at_both_ends() {
    assert_eq!(trim_bytes(b"  if ($x = 1) {\t"), b"if ($x = 1) {".to_vec());
    assert_eq!(trim_bytes(b"\t\r  \t"), b"".to_vec());
    assert_eq!(trim_bytes(b"x"), b"x".to_vec());
}

#[test]
fn scan_content_reports_lines_in_order_with_trimmed_text() {
    let content = b"<?php\n  if ($x = 5) {\n    eval($x);\n  }\n";
    let diags = scan_content(b"a.php", content);
    assert_eq!(diags.len(), 2);

    assert_eq!(diags[0].path, b"a.php".to_vec());
    assert_eq!(diags[0].line_number, 2);
    assert_eq!(diags[0].rule, RuleKind::Assignment);
    assert_eq!(diags[0].text, b"if ($x = 5) {".to_vec());

    assert_eq!(diags[1].path, b"a.php".to_vec());
    assert_eq!(diags[1].line_number, 3);
    assert_eq!(diags[1].rule, RuleKind::Eval);
    assert_eq!(diags[1].text, b"eval($x);".to_vec());
}

#[test]
fn rules_on_one_line_come_out_in_declaration_order() {
    let content = b"if ($x = $y++) { var_dump(eval($z)); }";
    let diags = scan_content(b"f.php", content);
    assert_eq!(diags.len(), 4);
    assert_eq!(diags[0].rule, RuleKind::Assignment);
    assert_eq!(diags[1].rule, RuleKind::Increment);
    assert_eq!(diags[2].rule, RuleKind::Eval);
    assert_eq!(diags[3].rule, RuleKind::VarDump);
    for d in &diags {
        assert_eq!(d.line_number, 1);
    }
}

#[test]
fn var_dump_twice_on_a_line_yields_one_diagnostic() {
    let content = b"var_dump($a); var_dump($b);";
    let diags = scan_content(b"f.php", content);
    assert_eq!(diags.len(), 1);
    assert_eq!(diags[0].rule, RuleKind::VarDump);
    assert_eq!(diags[0].line_number, 1);
}

#[test]
fn clean_content_yields_no_diagnostics() {
    let content = b"<?php\nif ($x == 5) {\n  echo $x;\n}\n";
    let diags = scan_content(b"ok.php", content);
    assert!(diags.is_empty());
}

#[test]
fn labels_match_their_rules() {
    assert_eq!(rule_label(RuleKind::Assignment), "Possible accidental assignment");
    assert_eq!(rule_label(RuleKind::Increment), "Increment / decrement in condition");
    assert_eq!(rule_label(RuleKind::Eval), "Use of eval()");
    assert_eq!(rule_label(RuleKind::VarDump), "Use of var_dump()");
}
