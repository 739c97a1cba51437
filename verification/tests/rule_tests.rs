use php_hound::rules::{
    line_has_assignment, line_has_eval, line_has_increment, line_has_var_dump,
};
use php_hound::scan::scan_line;

#[test]
fn assignment_fires_on_bare_assignment() {
    assert!(line_has_assignment(b"if ($x = 5) {"));
    assert!(line_has_assignment(b"if($x = 1)"));
    assert!(line_has_assignment(b"} elseif ($y = compute()) {"));
    assert!(line_has_assignment(b"while ($row = fetch($res)) {"));
}

#[test]
fn assignment_ignores_comparisons() {
    assert!(!line_has_assignment(b"if ($x == 5) {"));
    assert!(!line_has_assignment(b"if ($x != $y) {"));
    assert!(!line_has_assignment(b"while ($a <= $b) {"));
    assert!(!line_has_assignment(b"if ($a >= $b) {"));
    assert!(!line_has_assignment(b"elseif ($a == $b && $c != $d) {"));
}

#[test]
fn assignment_needs_a_keyword() {
    assert!(!line_has_assignment(b"$x = 5;"));
    assert!(!line_has_assignment(b"($x = 5)"));
}

#[test]
fn assignment_needs_a_closing_paren() {
    assert!(!line_has_assignment(b"if ($x = 5"));
}

#[test]
fn increment_fires_inside_if_condition() {
    assert!(line_has_increment(b"if ($i++ > 0) {"));
    assert!(line_has_increment(b"elseif ($j-- > 0) {"));
}

#[test]
fn increment_ignores_statements_outside_conditions() {
    assert!(!line_has_increment(b"$i++;"));
    assert!(!line_has_increment(b"$i--;"));
}

#[test]
fn increment_does_not_look_at_while() {
    assert!(!line_has_increment(b"while ($i++ < 10) {"));
}

#[test]
fn eval_fires_on_a_call() {
    assert!(line_has_eval(b"eval($x);"));
    assert!(line_has_eval(b"$r = eval ($code);"));
}

#[test]
fn eval_needs_a_word_boundary() {
    assert!(!line_has_eval(b"myeval($x);"));
    assert!(!line_has_eval(b"reeval($x);"));
    assert!(!line_has_eval(b"eval2($x);"));
}

#[test]
fn eval_needs_a_parenthesis() {
    assert!(!line_has_eval(b"evaluate($x);"));
    assert!(!line_has_eval(b"eval;"));
}

#[test]
fn var_dump_fires_on_a_call() {
    assert!(line_has_var_dump(b"var_dump($x);"));
    assert!(line_has_var_dump(b"  var_dump ($x, $y);"));
}

#[test]
fn var_dump_needs_a_word_boundary() {
    assert!(!line_has_var_dump(b"my_var_dump($x);"));
    assert!(!line_has_var_dump(b"xvar_dump($x);"));
    // `$` is not a word character, so a boundary sits right after it.
    assert!(line_has_var_dump(b"$var_dump($x);"));
}

#[test]
fn scan_line_reports_each_rule_independently() {
    let f = scan_line(b"if ($x = $y++) { eval($z); var_dump($w); }");
    assert!(f.assignment);
    assert!(f.increment);
    assert!(f.eval);
    assert!(f.var_dump);

    let f = scan_line(b"$total = $a + $b;");
    assert!(!f.assignment);
    assert!(!f.increment);
    assert!(!f.eval);
    assert!(!f.var_dump);
}
