use paris_lang::{
    eval, eval_block, lexer, Decimal, Environment, EvaluationError, Flow, Node, Span, SyntaxReason, Value,
};

/// Outcome of one top-level statement, with unconditional loops cut off after `rounds` runs.
#[derive(Debug, PartialEq)]
enum Step {
    Done(Value),
    Failed(EvaluationError, Span),
    StillLooping,
}

fn run(src: &str, rounds: usize) -> (Vec<Step>, Vec<String>) {
    let (nodes, errors) = lexer(src);
    assert!(errors.is_empty(), "unexpected syntax errors: {:?}", errors);
    let mut env = Environment::new();
    let mut out = Vec::new();
    let mut steps = Vec::new();
    for node in &nodes {
        let mut flow = eval(node, &mut env, &mut out);
        let mut left = rounds;
        let step = loop {
            match flow {
                Flow::Value(v) => break Step::Done(v),
                Flow::Failed((e, s)) => break Step::Failed(e, s),
                Flow::Forever(body) => {
                    if left == 0 {
                        break Step::StillLooping;
                    }
                    left -= 1;
                    flow = match eval_block(body, &mut env, &mut out) {
                        Flow::Value(_) => Flow::Forever(body),
                        other => other,
                    };
                }
            }
        };
        steps.push(step);
    }
    (steps, out)
}

fn output(src: &str) -> Vec<String> {
    run(src, 0).1
}

fn dec(whole: &str, fraction: &str) -> Decimal {
    Decimal { whole: whole.to_string(), fraction: fraction.to_string() }
}

#[test]
fn range_literal_parses_to_range() {
    let (nodes, errors) = lexer("3..7");
    assert!(errors.is_empty());
    assert_eq!(nodes.len(), 1);
    assert_eq!(nodes[0].0, Node::Range(3, 7));
    assert_eq!(nodes[0].1, Span { start: 0, end: 4 });
}

#[test]
fn range_loop_runs_body_end_minus_start_times() {
    let out = output("while 2..5 { display(`x`) }");
    assert_eq!(out, vec!["x", "x", "x"]);
}

#[test]
fn reversed_range_loop_runs_nothing() {
    assert!(output("while 5..2 { display(`x`) }").is_empty());
}

#[test]
fn empty_range_loop_writes_nothing() {
    let (steps, out) = run("while 0..0 { display(`x`) }", 0);
    assert!(out.is_empty());
    assert_eq!(steps, vec![Step::Done(Value::Null)]);
}

#[test]
fn number_literal_keeps_its_decimal_value() {
    let (nodes, errors) = lexer("1.50");
    assert!(errors.is_empty());
    assert_eq!(nodes[0].0, Node::NumericLiteral(dec("1", "5")));
    assert_eq!(output("display(1.50)"), vec!["1.5"]);
    assert_eq!(output("display(5.0)"), vec!["5"]);
    assert_eq!(output("display(007)"), vec!["7"]);
    assert_eq!(output("display(0.25)"), vec!["0.25"]);
}

#[test]
fn number_with_two_dots_is_a_syntax_error() {
    let (nodes, errors) = lexer("1.2.3");
    assert!(nodes.is_empty());
    assert_eq!(errors.len(), 1);
    assert_eq!(errors[0].span, Span { start: 0, end: 5 });
    assert_eq!(errors[0].reason, SyntaxReason::Custom("invalid float literal".to_string()));
}

#[test]
fn oversized_range_bound_is_a_syntax_error() {
    let (nodes, errors) = lexer("99999999999999999999..1");
    assert!(nodes.is_empty());
    assert_eq!(errors[0].span, Span { start: 0, end: 23 });
    assert!(matches!(errors[0].reason, SyntaxReason::Custom(_)));
}

#[test]
fn display_joins_arguments_without_separator() {
    assert_eq!(output("display(`a`, `b`)"), vec!["ab"]);
    assert_eq!(output("display(`n=`, 4, true, 1..3)"), vec!["n=4true1..3"]);
}

#[test]
fn unbound_variable_fails_and_later_statements_still_run() {
    let (steps, out) = run("display(y). display(`ok`)", 0);
    assert_eq!(steps[0], Step::Failed(EvaluationError::VariableNotFound("y".to_string()), Span { start: 8, end: 9 }));
    assert_eq!(steps[1], Step::Done(Value::Null));
    assert_eq!(out, vec!["ok"]);
}

#[test]
fn unknown_function_fails_with_its_name() {
    let (steps, out) = run("print(`a`)", 0);
    assert_eq!(steps[0], Step::Failed(EvaluationError::FunctionNotFound("print".to_string()), Span { start: 0, end: 5 }));
    assert!(out.is_empty());
}

#[test]
fn bound_variable_is_displayed() {
    assert_eq!(output("x := 5. display(x)"), vec!["5"]);
}

#[test]
fn later_binding_overwrites() {
    assert_eq!(output("x := 1. x := 2. display(x)"), vec!["2"]);
}

#[test]
fn true_loop_repeats_without_retesting() {
    let (steps, out) = run("while true { display(`x`) }", 3);
    assert_eq!(steps, vec![Step::StillLooping]);
    assert_eq!(out, vec!["x", "x", "x"]);
}

#[test]
fn positive_number_loop_repeats() {
    let (steps, out) = run("n := 2. while n { display(n). n := 0 }", 2);
    assert_eq!(steps[1], Step::StillLooping);
    assert_eq!(out, vec!["2", "0"]);
}

#[test]
fn zero_and_false_and_string_conditions_skip_the_loop() {
    assert!(output("while 0 { display(`x`) }").is_empty());
    assert!(output("while 0.0 { display(`x`) }").is_empty());
    assert!(output("while false { display(`x`) }").is_empty());
    assert!(output("while `s` { display(`x`) }").is_empty());
}

#[test]
fn error_inside_endless_loop_ends_it() {
    let (steps, out) = run("while true { display(`x`). display(z) }", 5);
    assert_eq!(steps[0], Step::Failed(EvaluationError::VariableNotFound("z".to_string()), Span { start: 35, end: 36 }));
    assert_eq!(out, vec!["x"]);
}

#[test]
fn unclosed_brace_is_reported_to_end_of_input() {
    let src = "while true { display(`x`)";
    let (nodes, errors) = lexer(src);
    assert!(nodes.is_empty());
    assert_eq!(errors.len(), 1);
    assert_eq!(errors[0].span, Span { start: 11, end: src.len() });
    assert_eq!(errors[0].reason, SyntaxReason::Unclosed { delimiter: '{', span: Span { start: 11, end: 12 } });
}

#[test]
fn unclosed_parenthesis_is_reported() {
    let (_, errors) = lexer("display(`a`");
    assert_eq!(errors[0].reason, SyntaxReason::Unclosed { delimiter: '(', span: Span { start: 7, end: 8 } });
    assert_eq!(errors[0].span, Span { start: 7, end: 11 });
}

#[test]
fn stray_character_is_unexpected_and_reading_goes_on() {
    let (nodes, errors) = lexer("# display(`a`)");
    assert_eq!(errors.len(), 1);
    assert_eq!(errors[0].span, Span { start: 0, end: 1 });
    assert!(matches!(errors[0].reason, SyntaxReason::Unexpected { found: Some('#'), .. }));
    assert_eq!(nodes.len(), 1);
}

#[test]
fn operator_run_is_unsupported_in_evaluation() {
    let (nodes, errors) = lexer("%=");
    assert!(errors.is_empty());
    assert_eq!(nodes[0].0, Node::Op("%=".to_string()));
    let (steps, _) = run("%=", 0);
    assert_eq!(steps[0], Step::Failed(EvaluationError::Unsupported("%=".to_string()), Span { start: 0, end: 2 }));
}

#[test]
fn literal_statements_evaluate_to_their_values() {
    let (steps, _) = run("`hi`; 12; false; 1..2", 0);
    assert_eq!(
        steps,
        vec![
            Step::Done(Value::String("hi".to_string())),
            Step::Done(Value::Number(dec("12", ""))),
            Step::Done(Value::Boolean(false)),
            Step::Done(Value::Range(1, 2)),
        ]
    );
}

#[test]
fn value_texts() {
    assert_eq!(Value::Null.to_string(), "");
    assert_eq!(Value::Range(-3, 40).to_string(), "-3..40");
    assert_eq!(Value::Range(i64::MIN, i64::MAX).to_string(), "-9223372036854775808..9223372036854775807");
    assert_eq!(Value::Boolean(true).to_string(), "true");
    assert_eq!(Value::Number(dec("10", "05")).to_string(), "10.05");
}

#[test]
fn decimal_from_digits_drops_redundant_zeros() {
    assert_eq!(Decimal::from_digits("000", "000"), dec("0", ""));
    assert_eq!(Decimal::from_digits("0100", "0200"), dec("100", "02"));
    assert!(!Decimal::from_digits("0", "00").is_positive());
    assert!(Decimal::from_digits("0", "01").is_positive());
}

#[test]
fn environment_rebinds() {
    let mut env = Environment::new();
    assert_eq!(env.get(&"a".to_string()), None);
    env.insert("a".to_string(), Value::Boolean(true));
    env.insert("a".to_string(), Value::Null);
    assert_eq!(env.get(&"a".to_string()), Some(Value::Null));
}

#[test]
fn evaluation_error_messages() {
    assert_eq!(EvaluationError::FunctionNotFound("f".to_string()).message(), "function f not found");
    assert_eq!(EvaluationError::VariableNotFound("v".to_string()).message(), "variable v not found");
}

#[test]
fn nested_call_and_binding_arguments() {
    assert_eq!(output("display(display(`in`), `out`)"), vec!["in", "out"]);
    assert_eq!(output("display(x := 3, x)"), vec!["3"]);
}

#[test]
fn name_starting_with_while_falls_back_to_a_binding() {
    let (nodes, errors) = lexer("whilex := 1");
    assert!(errors.is_empty());
    assert!(matches!(&nodes[0].0, Node::Variable(name, _) if name == "whilex"));
    assert_eq!(output("whilex := 1. display(whilex)"), vec!["1"]);
}

#[test]
fn unicode_whitespace_is_skipped() {
    assert_eq!(output("x\u{a0}:=\u{2003}7.\u{3000}display(x)"), vec!["7"]);
}

#[test]
fn backslash_in_string_is_an_error() {
    let (_, errors) = lexer("`a\\b`");
    assert!(!errors.is_empty());
    let (nodes, errors) = lexer("`ab c`");
    assert!(errors.is_empty());
    assert_eq!(nodes[0].0, Node::StringLiteral("ab c".to_string()));
    assert_eq!(nodes[0].1, Span { start: 0, end: 6 });
}

#[test]
fn valid_statement_before_malformed_number_is_kept() {
    let (nodes, errors) = lexer("x := 1. 1.2.3");
    assert_eq!(nodes.len(), 1);
    assert!(matches!(&nodes[0].0, Node::Variable(name, _) if name == "x"));
    assert_eq!(errors.len(), 1);
    assert_eq!(errors[0].span, Span { start: 8, end: 13 });
}

#[test]
fn separators_are_interchangeable() {
    let (a, ea) = lexer("x := 1. display(x)");
    let (b, eb) = lexer("x := 1; display(x);");
    assert!(ea.is_empty() && eb.is_empty());
    assert_eq!(a, b);
}

#[test]
fn unclosed_brace_after_a_complete_statement_is_unclosed() {
    let (nodes, errors) = lexer("while true { x := 1");
    assert!(nodes.is_empty());
    assert_eq!(errors.len(), 1);
    assert_eq!(errors[0].span, Span { start: 11, end: 19 });
    assert!(matches!(errors[0].reason, SyntaxReason::Unclosed { delimiter: '{', .. }));
}

#[test]
fn binding_with_trailing_separator_reads_as_one_node() {
    let (nodes, errors) = lexer("x := 5.");
    assert!(errors.is_empty());
    assert_eq!(nodes.len(), 1);
    assert_eq!(nodes[0].1, Span { start: 0, end: 6 });
    match &nodes[0].0 {
        Node::Variable(name, value) => {
            assert_eq!(name, "x");
            assert_eq!(value.0, Node::NumericLiteral(dec("5", "")));
            assert_eq!(value.1, Span { start: 5, end: 6 });
        }
        other => panic!("expected a binding, got {:?}", other),
    }
}
