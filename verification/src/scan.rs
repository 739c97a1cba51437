//! Scanning a file's content: every rule runs over every line, and each
//! (rule, line) pair that matches yields exactly one diagnostic.
//!
//! Diagnostics come out in a fixed order: lines in ascending order, and on
//! one line the rules in their declaration order — accidental assignment,
//! increment in condition, eval, var_dump.

use crate::lines::{split_into_lines, split_lines, trim_bytes, trimmed};
use crate::rules::{
    flags_assignment, flags_eval, flags_increment, flags_var_dump, line_has_assignment,
    line_has_eval, line_has_increment, line_has_var_dump,
};
use vstd::prelude::*;
use vstd::slice::slice_to_vec;

verus! {

/// The four rules of the scanner, in their fixed evaluation order.
#[derive(Clone, Copy, PartialEq, Eq, Debug, Structural)]
pub enum RuleKind {
    /// A bare `=` inside an `if`, `elseif` or `while` condition.
    Assignment,
    /// `++` or `--` inside an `if` or `elseif` condition.
    Increment,
    /// A call of `eval`.
    Eval,
    /// A call of `var_dump`.
    VarDump,
}

/// The label a diagnostic for this rule carries.
pub open spec fn label_of(k: RuleKind) -> Seq<char> {
    match k {
        RuleKind::Assignment => "Possible accidental assignment"@,
        RuleKind::Increment => "Increment / decrement in condition"@,
        RuleKind::Eval => "Use of eval()"@,
        RuleKind::VarDump => "Use of var_dump()"@,
    }
}

/// Returns the human-readable label of a rule.
pub fn rule_label(k: RuleKind) -> (r: &'static str)
    ensures
        r@ == label_of(k),
{
    match k {
        RuleKind::Assignment => "Possible accidental assignment",
        RuleKind::Increment => "Increment / decrement in condition",
        RuleKind::Eval => "Use of eval()",
        RuleKind::VarDump => "Use of var_dump()",
    }
}

/// One reported match: which rule fired, where, and the trimmed line.
pub struct Diagnostic {
    /// The path of the scanned file, as the caller handed it in.
    pub path: Vec<u8>,
    /// The 1-based number of the matching line.
    pub line_number: usize,
    /// The rule that fired.
    pub rule: RuleKind,
    /// The matching line with surrounding whitespace removed.
    pub text: Vec<u8>,
}

/// The mathematical image of a [`Diagnostic`].
pub ghost struct DiagModel {
    /// The path of the scanned file.
    pub path: Seq<u8>,
    /// The 1-based number of the matching line.
    pub line_number: int,
    /// The rule that fired.
    pub rule: RuleKind,
    /// The matching line with surrounding whitespace removed.
    pub text: Seq<u8>,
}

impl View for Diagnostic {
    type V = DiagModel;

    open spec fn view(&self) -> DiagModel {
        DiagModel {
            path: self.path@,
            line_number: self.line_number as int,
            rule: self.rule,
            text: self.text@,
        }
    }
}

/// The diagnostics one line yields: at most one per rule, in rule order.
pub open spec fn line_diags(path: Seq<u8>, lineno: int, line: Seq<u8>) -> Seq<DiagModel> {
    (if flags_assignment(line) {
        seq![diag_for(path, lineno, RuleKind::Assignment, line)]
    } else {
        Seq::<DiagModel>::empty()
    }) + (if flags_increment(line) {
        seq![diag_for(path, lineno, RuleKind::Increment, line)]
    } else {
        Seq::<DiagModel>::empty()
    }) + (if flags_eval(line) {
        seq![diag_for(path, lineno, RuleKind::Eval, line)]
    } else {
        Seq::<DiagModel>::empty()
    }) + (if flags_var_dump(line) {
        seq![diag_for(path, lineno, RuleKind::VarDump, line)]
    } else {
        Seq::<DiagModel>::empty()
    })
}

/// The diagnostics a list of lines yields, the first line numbered `first`.
pub open spec fn file_diags(path: Seq<u8>, lines: Seq<Seq<u8>>, first: int) -> Seq<DiagModel>
    decreases lines.len(),
{
    if lines.len() == 0 {
        Seq::<DiagModel>::empty()
    } else {
        line_diags(path, first, lines[0]) + file_diags(
            path,
            lines.subrange(1, lines.len() as int),
            first + 1,
        )
    }
}

/// Whether rule `k` fires on `line`.
pub open spec fn rule_fires(k: RuleKind, line: Seq<u8>) -> bool {
    match k {
        RuleKind::Assignment => flags_assignment(line),
        RuleKind::Increment => flags_increment(line),
        RuleKind::Eval => flags_eval(line),
        RuleKind::VarDump => flags_var_dump(line),
    }
}

/// The diagnostic reported when rule `k` fires on `line` at `lineno`.
pub open spec fn diag_for(path: Seq<u8>, lineno: int, k: RuleKind, line: Seq<u8>) -> DiagModel {
    DiagModel { path, line_number: lineno, rule: k, text: trimmed(line) }
}

/// Every diagnostic of a scan is sound: it carries the scanned path, a line
/// number inside the file, the trimmed text of exactly that line, and a
/// rule that does fire on that line.
pub proof fn lemma_file_diags_sound(path: Seq<u8>, lines: Seq<Seq<u8>>, first: int, k: int)
    requires
        0 <= k < file_diags(path, lines, first).len(),
    ensures
        ({
            let d = file_diags(path, lines, first)[k];
            &&& first <= d.line_number < first + lines.len()
            &&& d == diag_for(path, d.line_number, d.rule, lines[d.line_number - first])
            &&& rule_fires(d.rule, lines[d.line_number - first])
        }),
    decreases lines.len(),
{
    let head = line_diags(path, first, lines[0]);
    if k < head.len() {
        assert(file_diags(path, lines, first)[k] == head[k]);
    } else {
        let tail = lines.subrange(1, lines.len() as int);
        lemma_file_diags_sound(path, tail, first + 1, k - head.len());
        let d = file_diags(path, tail, first + 1)[k - head.len()];
        assert(file_diags(path, lines, first)[k] == d);
        assert(tail[d.line_number - (first + 1)] == lines[d.line_number - first]);
    }
}

/// Every match is reported: when a rule fires on the line at offset `t`,
/// the scan holds the diagnostic for that rule with that line's number.
pub proof fn lemma_file_diags_complete(
    path: Seq<u8>,
    lines: Seq<Seq<u8>>,
    first: int,
    t: int,
    rule: RuleKind,
)
    requires
        0 <= t < lines.len(),
        rule_fires(rule, lines[t]),
    ensures
        file_diags(path, lines, first).contains(diag_for(path, first + t, rule, lines[t])),
    decreases lines.len(),
{
    let d = diag_for(path, first + t, rule, lines[t]);
    let head = line_diags(path, first, lines[0]);
    let all = file_diags(path, lines, first);
    if t == 0 {
        let na: int = if flags_assignment(lines[0]) {
            1
        } else {
            0
        };
        let ni: int = if flags_increment(lines[0]) {
            1
        } else {
            0
        };
        let ne: int = if flags_eval(lines[0]) {
            1
        } else {
            0
        };
        let i: int = match rule {
            RuleKind::Assignment => 0,
            RuleKind::Increment => na,
            RuleKind::Eval => na + ni,
            RuleKind::VarDump => na + ni + ne,
        };
        assert(head[i] == d);
        assert(all[i] == d);
        assert(all.contains(d));
    } else {
        let tail = lines.subrange(1, lines.len() as int);
        assert(tail[t - 1] == lines[t]);
        lemma_file_diags_complete(path, tail, first + 1, t - 1, rule);
        let rest = file_diags(path, tail, first + 1);
        let k = choose|k: int| 0 <= k < rest.len() && #[trigger] rest[k] == d;
        assert(all[head.len() + k] == d);
        assert(all.contains(d));
    }
}

/// The number of diagnostics for rule `k` among `ds`.
pub open spec fn rule_count(ds: Seq<DiagModel>, k: RuleKind) -> nat {
    ds.filter(|d: DiagModel| d.rule == k).len()
}

/// Every rule yields exactly one diagnostic on a line it matches and none
/// on a line it does not, however many places on the line match it.
pub proof fn lemma_rule_fires_once_per_line(path: Seq<u8>, lineno: int, line: Seq<u8>)
    ensures
        rule_count(line_diags(path, lineno, line), RuleKind::Assignment) == (
        if flags_assignment(line) {
            1nat
        } else {
            0nat
        }),
        rule_count(line_diags(path, lineno, line), RuleKind::Increment) == (
        if flags_increment(line) {
            1nat
        } else {
            0nat
        }),
        rule_count(line_diags(path, lineno, line), RuleKind::Eval) == (
        if flags_eval(line) {
            1nat
        } else {
            0nat
        }),
        rule_count(line_diags(path, lineno, line), RuleKind::VarDump) == (
        if flags_var_dump(line) {
            1nat
        } else {
            0nat
        }),
{
    broadcast use Seq::filter_distributes_over_add;

    reveal_with_fuel(Seq::<_>::filter, 2);
}

/// Which rules fire on one line.
pub struct LineFindings {
    /// The accidental-assignment rule fired.
    pub assignment: bool,
    /// The increment rule fired.
    pub increment: bool,
    /// The eval rule fired.
    pub eval: bool,
    /// The var_dump rule fired.
    pub var_dump: bool,
}

/// Runs every rule over one line.
pub fn scan_line(line: &[u8]) -> (r: LineFindings)
    ensures
        r.assignment == flags_assignment(line@),
        r.increment == flags_increment(line@),
        r.eval == flags_eval(line@),
        r.var_dump == flags_var_dump(line@),
{
    LineFindings {
        assignment: line_has_assignment(line),
        increment: line_has_increment(line),
        eval: line_has_eval(line),
        var_dump: line_has_var_dump(line),
    }
}

/// Appends the diagnostics of one line, in rule order.
fn push_line_diags(path: &[u8], lineno: usize, line: &[u8], out: &mut Vec<Diagnostic>)
    ensures
        final(out)@.map_values(|d: Diagnostic| d@) == old(out)@.map_values(|d: Diagnostic| d@)
            + line_diags(path@, lineno as int, line@),
{
    let findings = scan_line(line);
    let ghost base = out@.map_values(|d: Diagnostic| d@);
    if findings.assignment {
        let d = Diagnostic {
            path: slice_to_vec(path),
            line_number: lineno,
            rule: RuleKind::Assignment,
            text: trim_bytes(line),
        };
        out.push(d);
    }
    if findings.increment {
        let d = Diagnostic {
            path: slice_to_vec(path),
            line_number: lineno,
            rule: RuleKind::Increment,
            text: trim_bytes(line),
        };
        out.push(d);
    }
    if findings.eval {
        let d = Diagnostic {
            path: slice_to_vec(path),
            line_number: lineno,
            rule: RuleKind::Eval,
            text: trim_bytes(line),
        };
        out.push(d);
    }
    if findings.var_dump {
        let d = Diagnostic {
            path: slice_to_vec(path),
            line_number: lineno,
            rule: RuleKind::VarDump,
            text: trim_bytes(line),
        };
        out.push(d);
    }
    proof {
        assert(out@.map_values(|d: Diagnostic| d@) =~= base + line_diags(
            path@,
            lineno as int,
            line@,
        ));
    }
}

/// Scans a whole file's content.
///
/// The result is exactly [`file_diags`] over the content's lines: for every
/// line, in ascending order, one diagnostic per matching rule, the rules in
/// their fixed order, each carrying the trimmed line.
pub fn scan_content(path: &[u8], content: &[u8]) -> (r: Vec<Diagnostic>)
    ensures
        r@.map_values(|d: Diagnostic| d@) == file_diags(path@, split_lines(content@), 1),
{
    let lines = split_into_lines(content);
    let nl = lines.len();
    let ghost lv = lines@.map_values(|l: Vec<u8>| l@);
    let mut out: Vec<Diagnostic> = Vec::new();
    let mut i: usize = 0;
    proof {
        assert(lv.subrange(0, nl as int) =~= lv);
        assert(out@.map_values(|d: Diagnostic| d@) =~= Seq::<DiagModel>::empty());
    }
    while i < nl
        invariant
            i <= nl,
            nl == lines@.len(),
            lv == lines@.map_values(|l: Vec<u8>| l@),
            lv == split_lines(content@),
            file_diags(path@, lv, 1) == out@.map_values(|d: Diagnostic| d@) + file_diags(
                path@,
                lv.subrange(i as int, nl as int),
                i + 1,
            ),
        decreases nl - i,
    {
        push_line_diags(path, i + 1, lines[i].as_slice(), &mut out);
        proof {
            let rest = lv.subrange(i as int, nl as int);
            assert(rest[0] == lines@[i as int]@);
            assert(rest.subrange(1, rest.len() as int) =~= lv.subrange(i + 1, nl as int));
        }
        i = i + 1;
    }
    proof {
        assert(lv.subrange(nl as int, nl as int) =~= Seq::<Seq<u8>>::empty());
    }
    out
}

} // verus!
