//! Environment check: what is reported about the toolchain and the machine.
use vstd::prelude::*;
use vstd::utf8::{decode_utf8, valid_utf8};
use crate::cli::format::{pad_right, push_left};
use crate::num::decimal::{pad_left, padded_left};
use crate::text::{chars_of, decimal, push_chars, push_decimal, text_of, trim, trimmed, utf8_chars};

verus! {

/// One row of the report.
#[derive(Debug, Clone, PartialEq, Eq)]
pub struct Finding {
    /// Short check name.
    pub name: &'static str,
    /// `true` when the check passed.
    pub ok: bool,
    /// Whether a failure here blocks (critical) or merely warns.
    pub critical: bool,
    /// Human-readable detail line.
    pub detail: String,
}

/// What a [`Finding`] says.
#[verifier::ext_equal]
pub ghost struct Row {
    pub name: Seq<char>,
    pub ok: bool,
    pub critical: bool,
    pub detail: Seq<char>,
}

impl View for Finding {
    type V = Row;

    open spec fn view(&self) -> Row {
        Row {
            name: self.name@,
            ok: self.ok,
            critical: self.critical,
            detail: self.detail@,
        }
    }
}

/// The row of a check that passed.
pub open spec fn passed(name: Seq<char>, detail: Seq<char>) -> Row {
    Row { name, ok: true, critical: true, detail }
}

/// The row of a check that merely warns.
pub open spec fn warned(name: Seq<char>, detail: Seq<char>) -> Row {
    Row { name, ok: false, critical: false, detail }
}

/// The row of a check that failed.
pub open spec fn failed(name: Seq<char>, detail: Seq<char>) -> Row {
    Row { name, ok: false, critical: true, detail }
}

impl Finding {
    /// A check that passed.
    pub fn pass(name: &'static str, detail: String) -> (r: Finding)
        ensures
            r@ == passed(name@, detail@),
    {
        Finding { name, ok: true, critical: true, detail }
    }

    /// A check that merely warns.
    pub fn warn(name: &'static str, detail: String) -> (r: Finding)
        ensures
            r@ == warned(name@, detail@),
    {
        Finding { name, ok: false, critical: false, detail }
    }

    /// A check that failed.
    pub fn fail(name: &'static str, detail: String) -> (r: Finding)
        ensures
            r@ == failed(name@, detail@),
    {
        Finding { name, ok: false, critical: true, detail }
    }
}

/// What the output of a tool says: its text without the white space around it,
/// or nothing where the tool did not run or wrote no text.
pub open spec fn tool_text(output: Option<Seq<u8>>) -> Seq<char> {
    match output {
        Some(b) => if valid_utf8(b) {
            trim(decode_utf8(b))
        } else {
            Seq::empty()
        },
        None => Seq::empty(),
    }
}

/// What the output of a tool that ran well says.
pub fn tool_version(output: Option<&[u8]>) -> (r: String)
    ensures
        r@ == tool_text(
            match output {
                Some(b) => Some(b@),
                None => None,
            },
        ),
{
    let none: String = String::new();
    match output {
        Some(b) => match utf8_chars(b) {
            Some(chars) => text_of(trimmed(chars.as_slice())),
            None => none,
        },
        None => none,
    }
}

/// What was found out about the machine.
#[derive(Debug)]
pub struct Facts {
    /// What the compiler says of itself; empty where it is missing.
    pub rustc: String,
    /// What the package manager says of itself; empty where it is missing.
    pub cargo: String,
    /// Operating system.
    pub os: String,
    /// Processor architecture.
    pub arch: String,
    /// Number of logical cores.
    pub cores: usize,
    /// What the license audit tool says of itself; empty where it is missing.
    pub deny: String,
    /// Whether the workspace was found.
    pub workspace: bool,
}

/// The row of a tool that the workspace needs.
pub open spec fn needed_tool(name: Seq<char>, version: Seq<char>, missing: Seq<char>) -> Row {
    if version.len() == 0 {
        failed(name, missing)
    } else {
        passed(name, version)
    }
}

/// The rows of the report.
pub open spec fn rows_for(f: Facts) -> Seq<Row> {
    seq![
        needed_tool("rustc"@, f.rustc@, "rustc not found on PATH — install Rust >= 1.85"@),
        needed_tool("cargo"@, f.cargo@, "cargo not found on PATH — install Rust >= 1.85"@),
        passed("platform"@, f.os@ + " / "@ + f.arch@),
        passed("cpu-cores"@, decimal(f.cores as nat) + " logical cores available for pinning"@),
        if f.deny@.len() == 0 {
            warned(
                "cargo-deny"@,
                "not installed — `cargo deny check` license audit unavailable (optional)"@,
            )
        } else {
            passed("cargo-deny"@, f.deny@)
        },
        if f.workspace {
            passed("workspace"@, "crates/tpt-t-core located"@)
        } else {
            failed(
                "workspace"@,
                "run doctor from the workspace root (crates/tpt-t-core not found)"@,
            )
        },
    ]
}

/// The rows of several findings.
pub open spec fn rows(v: Seq<Finding>) -> Seq<Row> {
    v.map_values(|f: Finding| f@)
}

fn tool_finding(name: &'static str, version: &String, missing: &str) -> (r: Finding)
    ensures
        r@ == needed_tool(name@, version@, missing@),
{
    let chars: Vec<char> = chars_of(version.as_str());
    if chars.len() == 0 {
        Finding::fail(name, missing.to_owned())
    } else {
        Finding::pass(name, version.as_str().to_owned())
    }
}

/// Collects every finding without printing.
pub fn collect(facts: &Facts) -> (r: Vec<Finding>)
    ensures
        rows(r@) == rows_for(*facts),
{
    let mut out: Vec<Finding> = Vec::new();
    out.push(
        tool_finding(
            "rustc",
            &facts.rustc,
            "rustc not found on PATH — install Rust >= 1.85",
        ),
    );
    out.push(
        tool_finding(
            "cargo",
            &facts.cargo,
            "cargo not found on PATH — install Rust >= 1.85",
        ),
    );
    let mut platform: String = facts.os.as_str().to_owned();
    platform.append(" / ");
    platform.append(facts.arch.as_str());
    out.push(Finding::pass("platform", platform));
    let mut cores: String = String::new();
    push_decimal(&mut cores, facts.cores as u64);
    cores.append(" logical cores available for pinning");
    proof {
        assert(cores@ =~= decimal(facts.cores as nat) + " logical cores available for pinning"@);
    }
    out.push(Finding::pass("cpu-cores", cores));
    let deny: Vec<char> = chars_of(facts.deny.as_str());
    if deny.len() == 0 {
        out.push(
            Finding::warn(
                "cargo-deny",
                "not installed — `cargo deny check` license audit unavailable (optional)".to_owned(),
            ),
        );
    } else {
        out.push(Finding::pass("cargo-deny", facts.deny.as_str().to_owned()));
    }
    if facts.workspace {
        out.push(Finding::pass("workspace", "crates/tpt-t-core located".to_owned()));
    } else {
        out.push(
            Finding::fail(
                "workspace",
                "run doctor from the workspace root (crates/tpt-t-core not found)".to_owned(),
            ),
        );
    }
    assert(rows(out@) =~= rows_for(*facts));
    out
}

/// The mark of a row.
pub open spec fn mark(r: Row) -> Seq<char> {
    if r.ok {
        "ok"@
    } else if r.critical {
        "FAIL"@
    } else {
        "warn"@
    }
}

/// The line of a row.
pub open spec fn row_text(r: Row) -> Seq<char> {
    "  ["@ + pad_left(mark(r), 4, ' ') + "] "@ + pad_right(r.name, 12) + " "@ + r.detail
}

/// Whether a row stops the environment from being ready.
pub open spec fn blocks(r: Row) -> bool {
    !r.ok && r.critical
}

/// How many rows warn.
pub open spec fn warnings(rs: Seq<Row>) -> nat
    decreases rs.len(),
{
    if rs.len() == 0 {
        0
    } else {
        warnings(rs.drop_last()) + if !rs.last().ok && !rs.last().critical {
            1nat
        } else {
            0nat
        }
    }
}

/// How many rows fail.
pub open spec fn failures(rs: Seq<Row>) -> nat
    decreases rs.len(),
{
    if rs.len() == 0 {
        0
    } else {
        failures(rs.drop_last()) + if blocks(rs.last()) {
            1nat
        } else {
            0nat
        }
    }
}

/// The lines of the rows.
pub open spec fn row_lines(rs: Seq<Row>) -> Seq<Seq<char>> {
    rs.map_values(|r: Row| row_text(r))
}

/// The lines of a report.
pub open spec fn report_lines(rs: Seq<Row>) -> Seq<Seq<char>> {
    seq!["tpt-teleop doctor — environment check\n"@] + row_lines(rs) + seq![
        "\n"@ + decimal((rs.len() - warnings(rs) - failures(rs)) as nat) + " check(s) passed, "@
            + decimal(warnings(rs)) + " warning(s), "@ + decimal(failures(rs)) + " failure(s)"@,
        if failures(rs) > 0 {
            "doctor: environment is NOT ready — resolve the FAIL items above"@
        } else {
            "doctor: environment looks ready"@
        },
    ]
}

/// The texts of several lines.
pub open spec fn line_texts(v: Seq<String>) -> Seq<Seq<char>> {
    v.map_values(|s: String| s@)
}

/// The report on several findings: its lines, and the exit code, which is 1 where
/// a critical check failed.
pub fn report(findings: &[Finding]) -> (r: (Vec<String>, i32))
    ensures
        line_texts(r.0@) == report_lines(rows(findings@)),
        r.1 == (if exists|i: int|
            0 <= i < findings@.len() && blocks((#[trigger] findings@[i])@) {
            1i32
        } else {
            0i32
        }),
{
    let ghost rs = rows(findings@);
    let mut out: Vec<String> = Vec::new();
    out.push("tpt-teleop doctor — environment check\n".to_owned());
    let ghost title = seq!["tpt-teleop doctor — environment check\n"@];
    assert(line_texts(out@) =~= title + row_lines(rs.take(0)));
    let mut warns: u64 = 0;
    let mut fails: u64 = 0;
    let mut i: usize = 0;
    proof {
        assert(rs.take(0) =~= Seq::<Row>::empty());
    }
    while i < findings.len()
        invariant
            i <= findings@.len(),
            rs == rows(findings@),
            title == seq!["tpt-teleop doctor — environment check\n"@],
            warns + fails <= i,
            warns == warnings(rs.take(i as int)),
            fails == failures(rs.take(i as int)),
            line_texts(out@) == title + row_lines(rs.take(i as int)),
            fails > 0 <==> exists|j: int| 0 <= j < i && blocks((#[trigger] findings@[j])@),
        decreases findings@.len() - i,
    {
        let f: &Finding = &findings[i];
        let ghost before = line_texts(out@);
        let m: &str = if f.ok {
            "ok"
        } else if f.critical {
            "FAIL"
        } else {
            "warn"
        };
        let mut line: String = "  [".to_owned();
        let chars: Vec<char> = chars_of(m);
        let wide: Vec<char> = padded_left(chars.as_slice(), 4, ' ');
        push_chars(&mut line, wide.as_slice());
        line.append("] ");
        push_left(&mut line, f.name, 12);
        line.append(" ");
        line.append(f.detail.as_str());
        assert(line@ =~= row_text(f@));
        out.push(line);
        if !f.ok {
            if f.critical {
                fails = fails + 1;
                assert(blocks(findings@[i as int]@));
            } else {
                warns = warns + 1;
            }
        }
        proof {
            let upto = rs.take(i + 1);
            assert(upto.drop_last() =~= rs.take(i as int));
            assert(upto.last() == f@);
            assert(row_lines(upto) =~= row_lines(rs.take(i as int)).push(row_text(f@)));
            assert(line_texts(out@) =~= before.push(row_text(f@)));
            assert(line_texts(out@) =~= title + row_lines(upto));
        }
        i = i + 1;
    }
    proof {
        assert(rs.take(i as int) =~= rs);
    }
    let ghost body = line_texts(out@);
    let mut tally: String = "\n".to_owned();
    push_decimal(&mut tally, findings.len() as u64 - warns - fails);
    tally.append(" check(s) passed, ");
    push_decimal(&mut tally, warns);
    tally.append(" warning(s), ");
    push_decimal(&mut tally, fails);
    tally.append(" failure(s)");
    out.push(tally);
    let code: i32 = if fails > 0 {
        out.push("doctor: environment is NOT ready — resolve the FAIL items above".to_owned());
        1
    } else {
        out.push("doctor: environment looks ready".to_owned());
        0
    };
    assert(line_texts(out@) =~= report_lines(rs));
    (out, code)
}

/// Every check either passed, warned or failed: what is no success is a failure
/// exactly if it is critical, and each is counted once.
pub proof fn law_checks_are_counted(a: Seq<Row>, b: Seq<Row>, r: Row)
    ensures
        warnings(a + b) == warnings(a) + warnings(b),
        failures(a + b) == failures(a) + failures(b),
        warnings(a) + failures(a) <= a.len(),
        warnings(seq![r]) == (if !r.ok && !r.critical {
            1nat
        } else {
            0nat
        }),
        failures(seq![r]) == (if !r.ok && r.critical {
            1nat
        } else {
            0nat
        }),
    decreases a.len(), b.len(),
{
    assert(seq![r].drop_last() =~= Seq::<Row>::empty());
    assert(seq![r].last() == r);
    assert(warnings(seq![r].drop_last()) == 0 && failures(seq![r].drop_last()) == 0);
    if a.len() > 0 {
        law_checks_are_counted(a.drop_last(), Seq::empty(), r);
    }
    if b.len() == 0 {
        assert(a + b =~= a);
    } else {
        law_checks_are_counted(a, b.drop_last(), r);
        assert((a + b).drop_last() =~= a + b.drop_last());
        assert((a + b).last() == b.last());
    }
}

/// The environment fails exactly if one of its checks did.
pub proof fn law_one_failure_is_enough(rs: Seq<Row>)
    ensures
        failures(rs) > 0 <==> exists|i: int| 0 <= i < rs.len() && !(#[trigger] rs[i]).ok
            && rs[i].critical,
    decreases rs.len(),
{
    if rs.len() > 0 {
        let front = rs.drop_last();
        law_one_failure_is_enough(front);
        if failures(front) > 0 {
            let i = choose|i: int| 0 <= i < front.len() && !(#[trigger] front[i]).ok
                && front[i].critical;
            assert(!rs[i].ok && rs[i].critical);
        }
        if blocks(rs.last()) {
            assert(!rs[rs.len() - 1].ok && rs[rs.len() - 1].critical);
        }
        if exists|i: int| 0 <= i < rs.len() && !(#[trigger] rs[i]).ok && rs[i].critical {
            let i = choose|i: int| 0 <= i < rs.len() && !(#[trigger] rs[i]).ok && rs[i].critical;
            if i < front.len() {
                assert(!front[i].ok && front[i].critical);
            }
        }
    }
}

/// A line starts with how its check went: `ok`, `FAIL` for a failure, and `warn`
/// for what is not critical.
pub proof fn law_rows_are_marked(r: Row)
    ensures
        r.ok ==> "  [  ok] "@.is_prefix_of(row_text(r)),
        !r.ok && r.critical ==> "  [FAIL] "@.is_prefix_of(row_text(r)),
        !r.ok && !r.critical ==> "  [warn] "@.is_prefix_of(row_text(r)),
        r.detail.is_suffix_of(row_text(r)),
{
    reveal_strlit("  [  ok] ");
    reveal_strlit("  [FAIL] ");
    reveal_strlit("  [warn] ");
    reveal_strlit("ok");
    reveal_strlit("FAIL");
    reveal_strlit("warn");
    reveal_strlit("  [");
    reveal_strlit("] ");
    let t = row_text(r);
    let start = t.subrange(0, 9);
    if r.ok {
        assert(start =~= "  [  ok] "@);
    } else if r.critical {
        assert(start =~= "  [FAIL] "@);
    } else {
        assert(start =~= "  [warn] "@);
    }
    assert(t.subrange(t.len() - r.detail.len(), t.len() as int) =~= r.detail);
}

/// What is missing decides how the checks go: without a compiler, the build tool
/// or the workspace the environment is not ready; without the licence audit it
/// is, with a warning.
pub proof fn law_missing_tools_decide(f: Facts)
    ensures
        ({
            let rs = rows_for(f);
            &&& failures(rs) > 0 <==> f.rustc@.len() == 0 || f.cargo@.len() == 0 || !f.workspace
            &&& warnings(rs) == 1 <==> f.deny@.len() == 0
            &&& warnings(rs) == 0 <==> f.deny@.len() > 0
        }),
{
    reveal_with_fuel(failures, 7);
    reveal_with_fuel(warnings, 7);
    let rs = rows_for(f);
    let r5 = rs.drop_last();
    let r4 = r5.drop_last();
    let r3 = r4.drop_last();
    let r2 = r3.drop_last();
    let r1 = r2.drop_last();
    assert(r1.drop_last().len() == 0);
    assert(rs.last() == rs[5] && r5.last() == rs[4] && r4.last() == rs[3] && r3.last() == rs[2]);
    assert(r2.last() == rs[1] && r1.last() == rs[0]);
}

} // verus!
