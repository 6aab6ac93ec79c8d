//! End-to-end behavior of the lexer, compiler, type checker and interpreter.

use stacklang::common::Error;
use stacklang::execution::{run_ops, RunResult, RunStatus, Value};
use stacklang::lexer::Lexer;
use stacklang::ops::{compile_program, Op};
use stacklang::type_checking::type_check_ops;

const FUEL: u64 = 1_000_000;

fn compile_source(source: &str) -> Result<Vec<Op>, Error> {
    let mut lexer = Lexer::new("test".to_string(), source);
    compile_program(&mut lexer)
}

fn run_source(source: &str) -> (RunResult, Vec<Op>) {
    let ops = compile_source(source).expect("program should compile");
    type_check_ops(&ops, FUEL).expect("program should type check");
    (run_ops(&ops, FUEL), ops)
}

fn output_of(source: &str) -> Vec<String> {
    let (result, _) = run_source(source);
    match result.status {
        RunStatus::Halted(stack) => {
            assert!(stack.is_empty(), "the operand stack should be empty at exit");
            result.output
        }
        RunStatus::Trapped(e) => panic!("unexpected trap: {}", e.message),
        RunStatus::OutOfFuel => panic!("unexpected fuel exhaustion"),
    }
}

#[test]
fn add_two_integers_and_print() {
    let ops = compile_source("1 2 + print").unwrap();
    assert!(matches!(ops[0], Op::PushInteger { value: 1, .. }));
    assert!(matches!(ops[1], Op::PushInteger { value: 2, .. }));
    assert!(matches!(ops[2], Op::AddInteger { .. }));
    assert!(matches!(ops[3], Op::Print { .. }));
    assert!(matches!(ops[4], Op::Exit { .. }));
    assert_eq!(ops.len(), 5);
    assert_eq!(output_of("1 2 + print"), vec!["3".to_string()]);
}

#[test]
fn procedure_with_signature_runs() {
    assert_eq!(
        output_of("proc f(int)(int){ 1 + } 5 f call print"),
        vec!["6".to_string()]
    );
}

#[test]
fn procedure_with_arrow_signature_runs() {
    assert_eq!(
        output_of("proc f(int) -> (int) { 2 * } 5 f call print"),
        vec!["10".to_string()]
    );
}

#[test]
fn polymorphic_equal_on_integers() {
    assert_eq!(output_of("1 2 = print"), vec!["false".to_string()]);
    assert_eq!(output_of("2 2 = print"), vec!["true".to_string()]);
}

#[test]
fn if_else_takes_the_true_branch() {
    assert_eq!(
        output_of("true if { 1 print } else { 2 print }"),
        vec!["1".to_string()]
    );
    assert_eq!(
        output_of("false if { 1 print } else { 2 print }"),
        vec!["2".to_string()]
    );
}

#[test]
fn while_loop_counts_to_three() {
    assert_eq!(
        output_of("0 while dup 3 < { dup print 1 + } drop"),
        vec!["0".to_string(), "1".to_string(), "2".to_string()]
    );
}

#[test]
fn branch_shape_mismatch_is_accepted_and_pinned() {
    // One branch leaves an integer, the other a boolean, and both fall
    // through to a shared print. The checker explores each path end to end
    // separately and does not compare the two branches' stacks at the merge
    // point, so this program is accepted; this test pins that behavior.
    let ops = compile_source("1 1 = if { 1 } else { 1 2 = } print").unwrap();
    assert!(type_check_ops(&ops, FUEL).is_ok());
    let result = run_ops(&ops, FUEL);
    match result.status {
        RunStatus::Halted(stack) => assert!(stack.is_empty()),
        _ => panic!("expected the program to halt"),
    }
    assert_eq!(result.output, vec!["1".to_string()]);
}

#[test]
fn backpatch_completeness_on_compiled_programs() {
    let sources = [
        "1 1 = if { 1 print } else { 2 print }",
        "0 while dup 3 < { dup print 1 + } drop",
        "proc f(int)(int){ 1 + } 5 f call print",
        "1 1 = if { 0 while dup 2 < { 1 + } drop }",
    ];
    for source in sources {
        let ops = compile_source(source).unwrap();
        for op in &ops {
            match op {
                Op::Jump { position, .. } => assert!(*position < ops.len()),
                Op::ConditonalJump { position, .. } => assert!(*position < ops.len()),
                Op::SkipProc { position, .. } => assert!(*position < ops.len()),
                Op::PushFunctionPointer { value, .. } => {
                    assert!(*value >= 1 && *value < ops.len());
                    assert!(matches!(ops[*value - 1], Op::SkipProc { .. }));
                }
                _ => {}
            }
        }
    }
}

#[test]
fn procedure_checked_once_used_twice() {
    assert_eq!(
        output_of("proc inc(int)(int){ 1 + } 1 inc call inc call print"),
        vec!["3".to_string()]
    );
}

#[test]
fn unresolved_name_is_an_error() {
    assert!(compile_source("frobnicate").is_err());
}

#[test]
fn missing_closing_brace_is_an_error() {
    assert!(compile_source("1 1 = if { 1 print").is_err());
}

#[test]
fn stray_closing_brace_is_an_error() {
    assert!(compile_source("}").is_err());
}

#[test]
fn signature_value_must_be_a_type() {
    assert!(compile_source("proc f(1)(int){ }").is_err());
}

#[test]
fn unknown_character_is_an_error() {
    assert!(compile_source("1 @ print").is_err());
}

#[test]
fn digit_too_big_for_base_is_an_error() {
    assert!(compile_source("0b2 print").is_err());
}

#[test]
fn stack_underflow_is_rejected_by_the_checker() {
    let ops = compile_source("+").unwrap();
    assert!(type_check_ops(&ops, FUEL).is_err());
}

#[test]
fn type_mismatch_is_rejected_by_the_checker() {
    // `!` wants a boolean but finds an integer.
    let ops = compile_source("1 ! print").unwrap();
    assert!(type_check_ops(&ops, FUEL).is_err());
}

#[test]
fn leftover_value_is_rejected_by_the_checker() {
    let ops = compile_source("1 2").unwrap();
    assert!(type_check_ops(&ops, FUEL).is_err());
}

#[test]
fn call_of_non_procedure_is_rejected() {
    let ops = compile_source("1 call").unwrap();
    assert!(type_check_ops(&ops, FUEL).is_err());
}

#[test]
fn division_by_zero_traps_at_runtime() {
    let ops = compile_source("1 0 / print").unwrap();
    assert!(type_check_ops(&ops, FUEL).is_ok());
    match run_ops(&ops, FUEL).status {
        RunStatus::Trapped(_) => {}
        _ => panic!("expected a runtime trap"),
    }
}

#[test]
fn integer_overflow_traps_at_runtime() {
    let ops = compile_source("9223372036854775807 1 + print").unwrap();
    assert!(type_check_ops(&ops, FUEL).is_ok());
    match run_ops(&ops, FUEL).status {
        RunStatus::Trapped(_) => {}
        _ => panic!("expected a runtime trap"),
    }
}

#[test]
fn endless_loop_runs_out_of_fuel() {
    let ops = compile_source("0 while true { 1 + } drop").unwrap();
    assert!(type_check_ops(&ops, FUEL).is_ok());
    match run_ops(&ops, 1000).status {
        RunStatus::OutOfFuel => {}
        _ => panic!("expected the step budget to run out"),
    }
}

#[test]
fn nested_loops_terminate_in_the_checker() {
    let ops =
        compile_source("0 while dup 2 < { 0 while dup 2 < { 1 + } drop 1 + } drop").unwrap();
    assert!(type_check_ops(&ops, FUEL).is_ok());
}

#[test]
fn base_prefixed_literals() {
    assert_eq!(output_of("0x1f print"), vec!["31".to_string()]);
    assert_eq!(output_of("0b101 print"), vec!["5".to_string()]);
    assert_eq!(output_of("0o17 print"), vec!["15".to_string()]);
    assert_eq!(output_of("0d9 print"), vec!["9".to_string()]);
    assert_eq!(output_of("1_000 print"), vec!["1000".to_string()]);
}

#[test]
fn negative_results_render_with_a_sign() {
    assert_eq!(output_of("0 5 - print"), vec!["-5".to_string()]);
}

#[test]
fn comparisons_and_not() {
    assert_eq!(output_of("1 2 < print"), vec!["true".to_string()]);
    assert_eq!(output_of("1 2 > print"), vec!["false".to_string()]);
    assert_eq!(output_of("2 2 <= print"), vec!["true".to_string()]);
    assert_eq!(output_of("1 2 >= print"), vec!["false".to_string()]);
    assert_eq!(output_of("1 2 != print"), vec!["true".to_string()]);
    assert_eq!(output_of("1 2 < ! print"), vec!["false".to_string()]);
}

#[test]
fn dup_drop_swap() {
    assert_eq!(output_of("1 dup + print"), vec!["2".to_string()]);
    assert_eq!(output_of("1 2 drop print"), vec!["1".to_string()]);
    assert_eq!(
        output_of("1 2 swap print print"),
        vec!["1".to_string(), "2".to_string()]
    );
}

#[test]
fn type_values_print_in_signature_notation() {
    assert_eq!(output_of("int print"), vec!["int".to_string()]);
    assert_eq!(output_of("bool print"), vec!["bool".to_string()]);
    assert_eq!(output_of("type print"), vec!["type".to_string()]);
    assert_eq!(
        output_of("proc(int bool)(type) print"),
        vec!["proc(int bool)(type)".to_string()]
    );
}

#[test]
fn function_pointers_print_as_their_address() {
    // The body entry lies one past the leading SkipProc at position 0.
    assert_eq!(output_of("proc g()(){ } g print"), vec!["1".to_string()]);
}

#[test]
fn empty_program_compiles_to_a_lone_exit() {
    let ops = compile_source("").unwrap();
    assert_eq!(ops.len(), 1);
    assert!(matches!(ops[0], Op::Exit { .. }));
    let (result, _) = run_source("");
    match result.status {
        RunStatus::Halted(stack) => assert!(stack.is_empty()),
        _ => panic!("expected an immediate halt"),
    }
}

#[test]
fn equality_on_type_values() {
    assert_eq!(output_of("int int = print"), vec!["true".to_string()]);
    assert_eq!(output_of("int bool = print"), vec!["false".to_string()]);
    assert_eq!(
        output_of("proc(int)(bool) proc(int)(bool) = print"),
        vec!["true".to_string()]
    );
}

#[test]
fn interpreter_halts_with_values_for_signature_runs() {
    // The compiler's signature evaluation relies on the interpreter handing
    // back the final stack; check that shape directly.
    let ops = compile_source("int bool").unwrap();
    match run_ops(&ops, FUEL).status {
        RunStatus::Halted(stack) => {
            assert_eq!(stack.len(), 2);
            assert!(matches!(stack[0], Value::Type(_)));
            assert!(matches!(stack[1], Value::Type(_)));
        }
        _ => panic!("expected a halt"),
    }
}

#[test]
fn conditional_jumps_follow_a_not_and_skips_follow_a_return() {
    let ops = compile_source(
        "proc f(int)(int){ 1 + } 1 1 = if { 0 while dup 2 < { 1 + } drop } else { 5 f call drop }",
    )
    .unwrap();
    for (i, op) in ops.iter().enumerate() {
        match op {
            Op::ConditonalJump { .. } => {
                assert!(i >= 1);
                assert!(matches!(ops[i - 1], Op::Not { .. }));
            }
            Op::SkipProc { position, .. } => {
                assert!(*position >= 1);
                assert!(matches!(ops[*position - 1], Op::Return { .. }));
            }
            _ => {}
        }
    }
}

#[test]
fn while_back_edges_pair_with_their_exit_jumps() {
    let sources = [
        "0 while dup 3 < { dup print 1 + } drop",
        "0 while dup 2 < { 0 while dup 2 < { 1 + } drop 1 + } drop",
        "proc f()(){ 0 while dup 2 < { 1 + } drop } f call",
    ];
    for source in sources {
        let ops = compile_source(source).unwrap();
        for (i, op) in ops.iter().enumerate() {
            if let Op::Jump { position, .. } = op {
                if *position <= i {
                    // A backward jump closes a loop: between the condition
                    // start and the jump sits the exit jump, patched to land
                    // one past the back edge.
                    let paired = (*position..i).any(|e| {
                        matches!(ops[e], Op::ConditonalJump { position: t, .. } if t == i + 1)
                    });
                    assert!(paired);
                }
            }
        }
    }
}
