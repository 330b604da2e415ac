use mdrun::block::{default_bindings, CodeBlock};
use mdrun::dispatch::{
    extraction_plan, file_invocation, file_path, inline_invocation, outcome_of, report_for,
    Outcome, ProcessOutput,
};

fn block(lang: Option<&str>, code: &str, start: usize) -> CodeBlock {
    CodeBlock { lang: lang.map(|l| l.to_string()), code: code.to_string(), start }
}

#[test]
fn effective_language_and_extension() {
    assert_eq!(block(Some("javascript"), "", 0).get_lang(), "javascript");
    assert_eq!(block(Some("javascript"), "", 0).get_file_ext(), "js");
    assert_eq!(block(Some("python"), "", 0).get_file_ext(), "py");
    assert_eq!(block(Some("rust"), "", 0).get_file_ext(), "no_ext");
    assert_eq!(block(Some(""), "", 0).get_lang(), "no_lang");
    assert_eq!(block(None, "", 0).get_file_ext(), "no_ext");
}

#[test]
fn start_line_is_one_based() {
    assert_eq!(block(None, "", 0).get_start_line(), 1);
    assert_eq!(block(None, "", 41).get_start_line(), 42);
}

#[test]
fn javascript_is_evaluated_inline_by_node() {
    let table = default_bindings();
    let src = "console.log(\"hello\")";
    let inv = inline_invocation(&table, &block(Some("javascript"), src, 3)).unwrap();
    assert_eq!(inv.program, "node");
    assert_eq!(
        inv.args,
        vec![
            "--experimental-vm-modules",
            "--experimental-modules",
            "--input-type=module",
            "-e",
            src
        ]
    );
}

#[test]
fn python_is_evaluated_inline_by_python3() {
    let table = default_bindings();
    let inv = inline_invocation(&table, &block(Some("python"), "raise SystemExit(3)", 0)).unwrap();
    assert_eq!(inv.program, "python3");
    assert_eq!(inv.args, vec!["-c", "raise SystemExit(3)"]);
}

#[test]
fn unbound_language_is_skipped_by_both_strategies() {
    let table = default_bindings();
    let b = block(Some("rust"), "fn main() {}", 0);
    assert!(inline_invocation(&table, &b).is_none());
    assert!(inline_invocation(&table, &block(None, "x", 0)).is_none());
    let ext = b.get_file_ext();
    assert_eq!(ext, "no_ext");
    assert!(file_invocation(&table, "./tmp/DOC__1.no_ext", &ext).is_none());
}

#[test]
fn files_are_run_by_extension() {
    let table = default_bindings();
    let js = file_invocation(&table, "./tmp/DOC__2.js", &"js".to_string()).unwrap();
    assert_eq!(js.program, "node");
    assert_eq!(js.args, vec!["./tmp/DOC__2.js"]);
    let py = file_invocation(&table, "./tmp/DOC__9.py", &"py".to_string()).unwrap();
    assert_eq!(py.program, "python3");
    assert_eq!(py.args, vec!["./tmp/DOC__9.py"]);
}

#[test]
fn file_names_use_prefix_line_and_extension() {
    let table = default_bindings();
    assert_eq!(file_path("./tmp", "DOC", &block(Some("javascript"), "", 2), &table), "./tmp/DOC__3.js");
    assert_eq!(file_path("out", "README", &block(Some("python"), "", 119), &table), "out/README__120.py");
    assert_eq!(file_path("d", "P", &block(Some("rust"), "", 0), &table), "d/P__1.no_ext");
}

#[test]
fn extraction_plan_names_every_block_apart() {
    let table = default_bindings();
    let blocks = vec![block(Some("python"), "a", 0), block(Some("python"), "b", 4)];
    let plan = extraction_plan("tmp", "DOC", &blocks, &table);
    assert_eq!(
        plan,
        vec![
            ("tmp/DOC__1.py".to_string(), "a".to_string()),
            ("tmp/DOC__5.py".to_string(), "b".to_string())
        ]
    );
}

#[test]
fn success_reports_stdout() {
    let out = ProcessOutput { success: true, stdout: "hello\n".to_string(), stderr: String::new() };
    assert_eq!(outcome_of(Ok(out)), Outcome::Success("hello\n".to_string()));
}

#[test]
fn failure_reports_stderr() {
    let out = ProcessOutput {
        success: false,
        stdout: "partial".to_string(),
        stderr: "Traceback: ZeroDivisionError".to_string(),
    };
    assert_eq!(outcome_of(Ok(out)), Outcome::Failure("Traceback: ZeroDivisionError".to_string()));
}

#[test]
fn launch_error_is_kept_apart() {
    let r = outcome_of(Err("No such file or directory".to_string()));
    assert_eq!(r, Outcome::LaunchError("No such file or directory".to_string()));
}

#[test]
fn report_holds_language_line_and_outcome() {
    let r = report_for(&block(None, "", 6), Outcome::Skipped);
    assert_eq!(r.lang, "no_lang");
    assert_eq!(r.line, 7);
    assert_eq!(r.outcome, Outcome::Skipped);
}

#[test]
fn file_names_carry_multi_digit_lines() {
    let table = default_bindings();
    assert_eq!(file_path("t", "DOC", &block(Some("js"), "", 9999), &table), "t/DOC__10000.no_ext");
    assert_eq!(file_path("t", "DOC", &block(Some("python"), "", 9), &table), "t/DOC__10.py");
}
