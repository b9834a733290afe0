//! End-to-end runs of small programs through the whole pipeline: lexer,
//! parser, interpreter, with the host's floating point supplied through
//! the library's trait.

use stacklang::floats::FloatArith;
use stacklang::interpreter::{run_source, Outcome, RunResult};
use stacklang::ops::InterpError;

struct HostFloats;

fn num(a: &str) -> f64 {
    a.parse::<f64>().unwrap_or(f64::NAN)
}

impl FloatArith for HostFloats {
    fn float_add(&self, a: &str, b: &str) -> String {
        (num(a) + num(b)).to_string()
    }
    fn float_sub(&self, a: &str, b: &str) -> String {
        (num(a) - num(b)).to_string()
    }
    fn float_mul(&self, a: &str, b: &str) -> String {
        (num(a) * num(b)).to_string()
    }
    fn float_div(&self, a: &str, b: &str) -> String {
        (num(a) / num(b)).to_string()
    }
    fn float_rem(&self, a: &str, b: &str) -> String {
        (num(a) % num(b)).to_string()
    }
    fn float_sqrt(&self, a: &str) -> String {
        num(a).sqrt().to_string()
    }
    fn float_lt(&self, a: &str, b: &str) -> bool {
        num(a) < num(b)
    }
    fn float_le(&self, a: &str, b: &str) -> bool {
        num(a) <= num(b)
    }
    fn float_gt(&self, a: &str, b: &str) -> bool {
        num(a) > num(b)
    }
    fn float_ge(&self, a: &str, b: &str) -> bool {
        num(a) >= num(b)
    }
}

fn run(src: &str) -> RunResult {
    let text = String::from(src);
    run_source(&text, &HostFloats, 1_000_000).expect("program should parse")
}

fn lines(src: &str) -> Vec<String> {
    run(src).output
}

#[test]
fn prints_one_literal() {
    assert_eq!(lines("42 print"), vec!["42".to_string()]);
}

#[test]
fn adds_two_ints() {
    assert_eq!(lines("3 4 + print"), vec!["7".to_string()]);
}

#[test]
fn promotes_int_plus_float() {
    assert_eq!(lines("3 4.0 + print"), vec!["7".to_string()]);
}

#[test]
fn concatenates_strings() {
    assert_eq!(
        lines("\"hi\" \" \" + \"world\" + print"),
        vec!["hi world".to_string()]
    );
}

#[test]
fn calls_a_function_with_ret() {
    assert_eq!(
        lines("fun sq x as x x * ret end 5 sq print"),
        vec!["25".to_string()]
    );
}

#[test]
fn while_counts_down() {
    let want: Vec<String> = (1..=10).rev().map(|n: i32| n.to_string()).collect();
    assert_eq!(lines("10 = n while n 0 > do n print n 1 - = n end"), want);
}

#[test]
fn concatenates_arrays() {
    assert_eq!(
        lines("[ 1 2 3 ] [ 4 5 ] + print"),
        vec!["[ 1 2 3 4 5 ]".to_string()]
    );
}

#[test]
fn assert_on_equal_values_is_silent() {
    let r = run("5 5 assert");
    assert!(r.output.is_empty());
    assert!(r.outcome != Outcome::AssertFailed);
}

#[test]
fn assert_on_unequal_values_fails_with_message() {
    let r = run("5 6 assert");
    assert_eq!(r.output, vec!["\"5\" != \"6\"".to_string()]);
    assert_eq!(r.outcome, Outcome::AssertFailed);
}

#[test]
fn full_program_with_main_finishes() {
    let r = run("fun main as 1 2 + print end");
    assert_eq!(r.output, vec!["3".to_string()]);
    assert_eq!(r.outcome, Outcome::Finished);
}

#[test]
fn integer_division_truncates() {
    assert_eq!(lines("fun main as 7 2 / print 0 7 - 2 / print end"), vec!["3", "-3"]);
}

#[test]
fn modulo_follows_dividend_sign() {
    assert_eq!(lines("fun main as 7 3 % print end"), vec!["1"]);
}

#[test]
fn division_by_zero_is_a_fault() {
    let r = run("fun main as 1 0 / print end");
    assert_eq!(r.outcome, Outcome::Fault(InterpError::Arith));
}

#[test]
fn plus_on_empty_stack_underflows() {
    let r = run("fun main as + end");
    assert_eq!(r.outcome, Outcome::Fault(InterpError::Underflow));
}

#[test]
fn type_guard_is_true_on_matching_kind() {
    assert_eq!(lines("fun main as 5 int is print 5 str is print end"), vec!["true", "false"]);
}

#[test]
fn structural_equality_on_arrays() {
    assert_eq!(
        lines("fun main as [ 1 2 ] [ 1 2 ] == print [ 1 2 ] [ 1 3 ] == print end"),
        vec!["true", "false"]
    );
}

#[test]
fn equality_of_value_with_itself() {
    assert_eq!(lines("fun main as \"abc\" \"abc\" == print end"), vec!["true"]);
}

#[test]
fn swap_twice_is_identity() {
    assert_eq!(
        lines("fun main as 1 2 swap swap print print end"),
        vec!["2", "1"]
    );
}

#[test]
fn drop_removes_exactly_one() {
    assert_eq!(lines("fun main as 1 2 drop print end"), vec!["1"]);
}

#[test]
fn copy_duplicates_the_top() {
    assert_eq!(lines("fun main as 9 copy print print end"), vec!["9", "9"]);
}

#[test]
fn carry_duplicates_below_top() {
    assert_eq!(lines("fun main as 7 8 carry print print print end"), vec!["7", "8", "7"]);
}

#[test]
fn rot_reorders_top_three() {
    // a b c with c on top becomes a c b: printing pops b, c, a
    assert_eq!(
        lines("fun main as 1 2 3 rot print print print end"),
        vec!["2", "3", "1"]
    );
}

#[test]
fn clear_empties_the_stack() {
    let r = run("fun main as 1 2 clear print end");
    assert_eq!(r.outcome, Outcome::Fault(InterpError::Underflow));
}

#[test]
fn sqrt_of_int_takes_the_floor() {
    assert_eq!(lines("fun main as 10 sqrt print 25 sqrt print end"), vec!["3", "5"]);
}

#[test]
fn push_appends_to_the_array() {
    assert_eq!(lines("fun main as [ 1 2 ] 3 push print end"), vec!["[ 1 2 3 ]"]);
}

#[test]
fn pop_splits_last_element_off() {
    assert_eq!(
        lines("fun main as [ 1 2 3 ] pop print print end"),
        vec!["3", "[ 1 2 ]"]
    );
}

#[test]
fn strings_inside_arrays_print_quoted() {
    assert_eq!(lines("fun main as [ \"a\" 2 ] print end"), vec!["[ \"a\" 2 ]"]);
}

#[test]
fn if_true_runs_branch() {
    assert_eq!(lines("fun main as true if 1 print end end"), vec!["1"]);
}

#[test]
fn if_false_skips_to_else() {
    assert_eq!(
        lines("fun main as false if 1 print else 2 print end end"),
        vec!["2"]
    );
}

#[test]
fn if_true_skips_else_branch() {
    assert_eq!(
        lines("fun main as true if 1 print else 2 print end end"),
        vec!["1"]
    );
}

#[test]
fn name_assigned_in_block_is_invisible_after_end() {
    // reading x after the block resolves nowhere, so print underflows
    let r = run("fun main as true if 5 = x end x print end");
    assert_eq!(r.outcome, Outcome::Fault(InterpError::Underflow));
}

#[test]
fn name_assigned_at_function_scope_stays_visible() {
    assert_eq!(
        lines("fun main as 5 = x true if end x print end"),
        vec!["5"]
    );
}

#[test]
fn global_name_is_visible_in_every_invocation() {
    assert_eq!(lines("7 = g fun show as g print end fun main as show show end"), vec!["7", "7"]);
}

#[test]
fn returning_assignment_keeps_the_value() {
    assert_eq!(lines("fun main as 4 => x print x print end"), vec!["4", "4"]);
}

#[test]
fn type_guard_parameter_filters_mismatches() {
    // the guard drops a non-int silently, so nothing reaches the stack
    let r = run("fun f int as print end fun main as \"s\" f end");
    assert_eq!(r.outcome, Outcome::Fault(InterpError::Underflow));
}

#[test]
fn type_guard_parameter_passes_matches() {
    assert_eq!(lines("fun f int as print end fun main as 5 f end"), vec!["5"]);
}

#[test]
fn float_comparison_drives_while() {
    assert_eq!(lines("fun main as 1.5 0.5 > print end"), vec!["true"]);
}

#[test]
fn unknown_identifier_is_silent() {
    assert_eq!(lines("fun main as nothing_here 1 print end"), vec!["1"]);
}

#[test]
fn missing_main_is_a_fault_after_global_runs() {
    let r = run("42 print");
    assert_eq!(r.output, vec!["42".to_string()]);
    assert_eq!(r.outcome, Outcome::Fault(InterpError::MissingFunction));
}

#[test]
fn fuel_runs_out_on_an_endless_loop() {
    let text = String::from("fun main as while true do end end");
    let r = run_source(&text, &HostFloats, 10_000).expect("parses");
    assert_eq!(r.outcome, Outcome::Fault(InterpError::FuelOut));
}

#[test]
fn adding_int_and_string_is_a_type_fault() {
    let r = run("fun main as 1 \"s\" + end");
    assert_eq!(r.outcome, Outcome::Fault(InterpError::TypeMismatch));
}

#[test]
fn if_on_a_non_boolean_is_a_fault() {
    let r = run("fun main as 5 if end end");
    assert_eq!(r.outcome, Outcome::Fault(InterpError::NotBoolean));
}

#[test]
fn assignment_to_a_literal_is_a_fault() {
    let r = run("fun main as 5 = 6 end");
    assert_eq!(r.outcome, Outcome::Fault(InterpError::AssignTarget));
}

#[test]
fn assignment_with_no_target_is_a_fault() {
    let r = run("fun main as 1 = end");
    assert_eq!(r.outcome, Outcome::Fault(InterpError::MissingToken));
}

#[test]
fn while_condition_must_be_textual() {
    let r = run("fun main as while [ 1 ] do end end");
    assert_eq!(r.outcome, Outcome::Fault(InterpError::ArrayAsText));
}

#[test]
fn call_with_too_few_arguments_is_a_fault() {
    let r = run("fun f x as end fun main as f end");
    assert_eq!(r.outcome, Outcome::Fault(InterpError::ArgShortfall));
}

#[test]
fn parameter_that_is_no_name_or_guard_is_a_fault() {
    let r = run("fun f + as end fun main as 1 f end");
    assert_eq!(r.outcome, Outcome::Fault(InterpError::BadParameter));
}

#[test]
fn comparing_a_string_is_a_fault() {
    let r = run("fun main as \"a\" 1 > end");
    assert_eq!(r.outcome, Outcome::Fault(InterpError::TypeMismatch));
}

#[test]
fn comparing_int_against_string_yields_false() {
    assert_eq!(lines("fun main as 1 \"a\" > print end"), vec!["false"]);
}

#[test]
fn nested_ifs_take_the_right_branches() {
    assert_eq!(
        lines("fun main as true if false if 1 print else 2 print end 3 print end end"),
        vec!["2", "3"]
    );
}

#[test]
fn sequential_ifs_are_independent() {
    assert_eq!(
        lines("fun main as true if 1 print end false if 2 print end 3 print end"),
        vec!["1", "3"]
    );
}

#[test]
fn if_inside_while_body() {
    assert_eq!(
        lines(
            "fun main as 3 = n while n 0 > do n 2 == if n print end n 1 - = n end end"
        ),
        vec!["2"]
    );
}

#[test]
fn while_inside_if_branch() {
    assert_eq!(
        lines("fun main as 2 = n true if while n 0 > do n print n 1 - = n end end end"),
        vec!["2", "1"]
    );
}

#[test]
fn block_assigned_name_is_invisible_to_while_sub_runs() {
    // n lives in the if block's heap, which a while condition run cannot
    // see, so the comparison underflows
    let r = run("fun main as true if 2 = n while n 0 > do n print end end end");
    assert_eq!(r.outcome, Outcome::Fault(InterpError::Underflow));
}

#[test]
fn global_rebinding_from_a_function_targets_the_global_heap() {
    assert_eq!(
        lines("1 = g fun bump as g 1 + = g end fun main as bump bump g print end"),
        vec!["3"]
    );
}

#[test]
fn shadowing_inside_a_block_overwrites_the_function_local() {
    // x already lives at function scope, so the block assignment overwrites it
    assert_eq!(
        lines("fun main as 1 = x true if 2 = x end x print end"),
        vec!["2"]
    );
}

#[test]
fn overflow_of_int_addition_is_a_fault() {
    let r = run("fun main as 2147483647 1 + end");
    assert_eq!(r.outcome, Outcome::Fault(InterpError::Arith));
}

#[test]
fn big_literal_becomes_a_float() {
    // it does not parse as a 32-bit integer, so the parser retags it a float
    assert_eq!(lines("fun main as 2147483648 int is print end"), vec!["false"]);
}

#[test]
fn import_and_linebreaks_are_inert() {
    assert_eq!(lines("fun main as import\n1\nprint end"), vec!["1"]);
}

#[test]
fn mixed_comparison_through_the_host() {
    assert_eq!(lines("fun main as 1 1.5 < print 2.5 2 >= print end"), vec!["true", "true"]);
}

#[test]
fn float_arithmetic_keeps_float_kind() {
    assert_eq!(lines("fun main as 1.5 1.5 + float is print end"), vec!["true"]);
}

#[test]
fn sqrt_of_float_through_the_host() {
    assert_eq!(lines("fun main as 2.25 sqrt print end"), vec!["1.5"]);
}

#[test]
fn block_opens_a_scope_its_end_pops() {
    // a name first assigned inside `block ... end` is invisible after it
    let r = run("fun main as block 5 = x end x print end");
    assert_eq!(r.outcome, Outcome::Fault(InterpError::Underflow));
}

#[test]
fn block_is_otherwise_inert() {
    assert_eq!(lines("fun main as 1 block 2 print end print end"), vec!["2", "1"]);
}

#[test]
fn loop_is_an_inert_scope_marker() {
    assert_eq!(lines("fun main as loop 1 print end end"), vec!["1"]);
}

#[test]
fn loop_scopes_names_like_block() {
    let r = run("fun main as loop 5 = x end x print end");
    assert_eq!(r.outcome, Outcome::Fault(InterpError::Underflow));
}
