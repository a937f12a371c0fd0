use bugland::error::{Error, Tag};
use bugland::interpreter::Interpreter;
use bugland::token::LexError;

fn run_script(src: &str) -> (Vec<String>, Result<(), Error>) {
    let mut interp = Interpreter::new();
    let r = interp.interpret(src);
    (interp.output().clone(), r)
}

fn lines(v: &[&str]) -> Vec<String> {
    v.iter().map(|s| s.to_string()).collect()
}

#[test]
fn declare_then_print() {
    let (out, r) = run_script("variable x = 5; print x;");
    assert_eq!(r, Ok(()));
    assert_eq!(out, lines(&["5"]));
}

#[test]
fn increment_then_print() {
    let (out, r) = run_script("variable x = 5; update x++; print x;");
    assert_eq!(r, Ok(()));
    assert_eq!(out, lines(&["6"]));
}

#[test]
fn if_true_runs_block() {
    let (out, r) = run_script("variable x = 10; if (x > 5) { print \"big\"; }");
    assert_eq!(r, Ok(()));
    assert_eq!(out, lines(&["big"]));
}

#[test]
fn if_false_skips_block() {
    let (out, r) = run_script("variable x = 1; if (x > 5) { print \"big\"; } print \"after\";");
    assert_eq!(r, Ok(()));
    assert_eq!(out, lines(&["after"]));
}

#[test]
fn while_counts_to_three() {
    let (out, r) = run_script("variable x = 0; while (x < 3) { print x; update x + 1; }");
    assert_eq!(r, Ok(()));
    assert_eq!(out, lines(&["0", "1", "2"]));
}

#[test]
fn for_counts_to_three() {
    let (out, r) = run_script("for (x = 0; x < 3; x = x + 1) { print x; }");
    assert_eq!(r, Ok(()));
    assert_eq!(out, lines(&["0", "1", "2"]));
}

#[test]
fn for_with_add_assign_update() {
    let (out, r) = run_script("for (i = 1; i < 8; i += 3) { print i; }");
    assert_eq!(r, Ok(()));
    assert_eq!(out, lines(&["1", "4", "7"]));
}

#[test]
fn print_undefined_fails_without_output() {
    let (out, r) = run_script("print y;");
    assert_eq!(r, Err(Error::UndefinedVariable("y".to_string())));
    assert!(out.is_empty());
}

#[test]
fn output_before_error_is_kept() {
    let (out, r) = run_script("print 1; print y; print 2;");
    assert_eq!(r, Err(Error::UndefinedVariable("y".to_string())));
    assert_eq!(out, lines(&["1"]));
}

#[test]
fn nested_blocks_run() {
    let src = "variable x = 0; while (x < 2) { if (x = 1) { print \"one\"; } print x; update x++; }";
    let (out, r) = run_script(src);
    assert_eq!(r, Ok(()));
    assert_eq!(out, lines(&["0", "one", "1"]));
}

#[test]
fn redeclaring_integer_updates_binding() {
    let (out, r) = run_script("variable x = 5; variable x = 7; print x;");
    assert_eq!(r, Ok(()));
    assert_eq!(out, lines(&["7"]));
}

#[test]
fn redeclaring_float_updates_binding() {
    let (out, r) = run_script("variable f = 1.5; variable f = 2.25; print f;");
    assert_eq!(r, Ok(()));
    assert_eq!(out, lines(&["2.25"]));
}

#[test]
fn redeclaring_boolean_updates_binding() {
    let (out, r) = run_script("variable b = true; variable b = false; print b;");
    assert_eq!(r, Ok(()));
    assert_eq!(out, lines(&["false"]));
}

#[test]
fn redeclaring_string_updates_binding() {
    let (out, r) = run_script("variable s = \"a\"; variable s = \"b\"; print s;");
    assert_eq!(r, Ok(()));
    assert_eq!(out, lines(&["\"b\""]));
}

#[test]
fn integer_keeps_value_on_string_assignment() {
    let (out, r) = run_script("variable x = 5; update x = \"hi\"; print x;");
    assert_eq!(r, Ok(()));
    assert_eq!(out, lines(&["5"]));
}

#[test]
fn boolean_keeps_value_on_number_assignment() {
    let (out, r) = run_script("variable b = true; update b = 3; print b;");
    assert_eq!(r, Ok(()));
    assert_eq!(out, lines(&["true"]));
}

#[test]
fn string_takes_any_text() {
    let (out, r) = run_script("variable s = \"x\"; update s = 42; print s;");
    assert_eq!(r, Ok(()));
    assert_eq!(out, lines(&["42"]));
}

#[test]
fn decrement_and_subtract() {
    let (out, r) = run_script("variable x = 10; update x--; print x; update x - 4; print x;");
    assert_eq!(r, Ok(()));
    assert_eq!(out, lines(&["9", "5"]));
}

#[test]
fn print_literals() {
    let (out, r) = run_script("print 12; print 3.5; print true; print \"hi there\";");
    assert_eq!(r, Ok(()));
    assert_eq!(out, lines(&["12", "3.5", "true", "hi there"]));
}

#[test]
fn lex_error_stops_before_running() {
    let (out, r) = run_script("print 1; print @;");
    assert_eq!(r, Err(Error::Lex(LexError::UnexpectedCharacter('@'))));
    assert!(out.is_empty());
}

#[test]
fn bad_print_shape_is_syntax_error() {
    let (_, r) = run_script("print 1 2;");
    assert!(matches!(r, Err(Error::Syntax(_))));
}

#[test]
fn unknown_leading_token_is_syntax_error() {
    let (_, r) = run_script("x = 1;");
    assert!(matches!(r, Err(Error::Syntax(_))));
}

#[test]
fn increment_of_boolean_is_type_mismatch() {
    let (_, r) = run_script("variable b = true; update b++;");
    assert_eq!(r, Err(Error::TypeMismatch { name: "b".to_string(), expected: Tag::Integer }));
}

#[test]
fn increment_past_maximum_overflows() {
    let (out, r) = run_script("variable x = 9223372036854775807; update x++; print x;");
    assert_eq!(r, Err(Error::Overflow("x".to_string())));
    assert!(out.is_empty());
}

#[test]
fn endless_loop_hits_limit() {
    let (out, r) = run_script("variable x = 0; while (x < 5) { update x = 0; }");
    assert_eq!(r, Err(Error::LoopLimit));
    assert!(out.is_empty());
}

#[test]
fn two_character_operator_condition_is_false() {
    let (out, r) = run_script("variable x = 1; if (x == 1) { print \"eq\"; } print \"end\";");
    assert_eq!(r, Ok(()));
    assert_eq!(out, lines(&["end"]));
}

#[test]
fn unterminated_block_is_syntax_error() {
    let (_, r) = run_script("variable x = 1; if (x = 1) { print x;");
    assert!(matches!(r, Err(Error::Syntax(_))));
}

#[test]
fn non_ascii_identifier_is_read() {
    let (out, r) = run_script("variable caf\u{e9} = 1; print caf\u{e9};");
    assert_eq!(r, Ok(()));
    assert_eq!(out, lines(&["1"]));
}

#[test]
fn comment_is_skipped() {
    let (out, r) = run_script("// a note\nprint 4; // trailing\n");
    assert_eq!(r, Ok(()));
    assert_eq!(out, lines(&["4"]));
}

#[test]
fn float_prints_without_redundant_zeros() {
    let (out, r) = run_script("print 2.50; print 007.0; variable f = 0.10; print f; update f = 3.000; print f;");
    assert_eq!(r, Ok(()));
    assert_eq!(out, lines(&["2.5", "7", "0.1", "3"]));
}

#[test]
fn for_init_takes_any_literal() {
    let (out, r) = run_script("for (x = true; x = 1; x = 5) { print x; }");
    assert_eq!(r, Ok(()));
    assert!(out.is_empty());
}

#[test]
fn redeclaring_string_with_number_keeps_string() {
    let (out, r) = run_script("variable s = \"abc\"; variable s = 7; print s;");
    assert_eq!(r, Ok(()));
    assert_eq!(out, lines(&["7"]));
}
