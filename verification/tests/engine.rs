use core_interpreter::decimal::int_to_string;
use core_interpreter::executor::init_executor;
use core_interpreter::parser::{init_parser, FaultKind, ParseTree};
use core_interpreter::tokenizer::{tokenize_source, Token};

fn scan(src: &str) -> Vec<Token> {
    tokenize_source(&src.as_bytes().to_vec())
}

fn run(src: &str, input: Vec<i32>) -> Result<ParseTree, core_interpreter::parser::Fault> {
    init_executor(scan(src), input, 1000)
}

fn output_of(src: &str, input: Vec<i32>) -> Vec<String> {
    run(src, input).expect("program should run").output
}

#[test]
fn scenario_straight_line_assignments() {
    assert_eq!(
        output_of("program int A,B; begin A=3; B=4; write A,B; end", vec![]),
        vec!["A = 3".to_string(), "B = 4".to_string()]
    );
}

#[test]
fn scenario_while_loop_counts_to_three() {
    assert_eq!(
        output_of(
            "program int A; begin A=0; while (A<3) loop A=A+1; end; write A; end",
            vec![]
        ),
        vec!["A = 3".to_string()]
    );
}

#[test]
fn scenario_if_takes_then_branch() {
    assert_eq!(
        output_of(
            "program int A,B; begin A=5; B=0; if (A>3) then B=1; else B=2; end; write B; end",
            vec![]
        ),
        vec!["B = 1".to_string()]
    );
}

#[test]
fn scenario_missing_semicolon_is_fatal() {
    let fault = run("program int A begin end", vec![]).expect_err("must fail");
    assert_eq!(fault.kind, FaultKind::ExpectedSemicolon);
}

#[test]
fn scenario_conjunction_is_false_without_short_circuit() {
    assert_eq!(
        output_of(
            "program int A; begin if [ (1==1) && (2==3) ] then A=1; else A=2; end; write A; end",
            vec![]
        ),
        vec!["A = 2".to_string()]
    );
}

#[test]
fn second_conjunct_is_evaluated_even_when_first_decides() {
    // the right-hand comparison must run: it creates X's binding, which
    // `write` then reports as zero
    assert_eq!(
        output_of(
            "program int A; begin if [ (1==2) && (X==3) ] then A=1; else A=2; end; write A,X; end",
            vec![]
        ),
        vec!["A = 2".to_string(), "X = 0".to_string()]
    );
}

#[test]
fn while_false_on_first_evaluation_runs_zero_times() {
    assert_eq!(
        output_of(
            "program int A; begin A=5; while (A<0) loop A=A+1; end; write A; end",
            vec![]
        ),
        vec!["A = 5".to_string()]
    );
}

#[test]
fn writing_twice_without_mutation_repeats_the_line() {
    assert_eq!(
        output_of("program int A; begin A=7; write A; write A; end", vec![]),
        vec!["A = 7".to_string(), "A = 7".to_string()]
    );
}

#[test]
fn read_binds_input_values_in_order() {
    assert_eq!(
        output_of(
            "program int A,B; begin read A,B; write A,B; end",
            vec![7, 9]
        ),
        vec!["A = 7".to_string(), "B = 9".to_string()]
    );
}

#[test]
fn read_past_supplied_input_is_fatal() {
    let fault = run("program int A; begin read A; end", vec![]).expect_err("must fail");
    assert_eq!(fault.kind, FaultKind::InputExhausted);
}

#[test]
fn endless_loop_exhausts_the_budget() {
    let fault = run(
        "program int A; begin while (1<2) loop A=A+1; end; end",
        vec![],
    )
    .expect_err("must fail");
    assert_eq!(fault.kind, FaultKind::FuelExhausted);
}

#[test]
fn subtraction_associates_to_the_right() {
    // 5 - 2 - 1 parses as 5 - (2 - 1)
    assert_eq!(
        output_of("program int A; begin A=5-2-1; write A; end", vec![]),
        vec!["A = 4".to_string()]
    );
}

#[test]
fn arithmetic_wraps_around() {
    assert_eq!(
        output_of(
            "program int A; begin A=2147483647+1; write A; end",
            vec![]
        ),
        vec!["A = -2147483648".to_string()]
    );
}

#[test]
fn nested_constructs_skip_to_their_own_end() {
    let src = "program int A,B; begin A=0; B=0; \
               if (A>1) then while (B<5) loop B=B+1; end; A=9; else B=7; end; \
               write A,B; end";
    assert_eq!(
        output_of(src, vec![]),
        vec!["A = 0".to_string(), "B = 7".to_string()]
    );
}

#[test]
fn nested_loop_inside_taken_branch_runs() {
    let src = "program int A,B; begin A=2; B=0; \
               if (A>1) then while (B<5) loop B=B+1; end; else B=7; end; \
               write B; end";
    assert_eq!(output_of(src, vec![]), vec!["B = 5".to_string()]);
}

#[test]
fn missing_program_keyword_is_fatal() {
    let fault = run("begin end", vec![]).expect_err("must fail");
    assert_eq!(fault.kind, FaultKind::ExpectedProgram);
}

#[test]
fn missing_then_is_fatal() {
    let fault = run(
        "program int A; begin if (A<1) A=1; end; end",
        vec![],
    )
    .expect_err("must fail");
    assert_eq!(fault.kind, FaultKind::ExpectedThen);
}

#[test]
fn missing_loop_keyword_is_fatal() {
    let fault = run(
        "program int A; begin while (A<1) A=1; end; end",
        vec![],
    )
    .expect_err("must fail");
    assert_eq!(fault.kind, FaultKind::ExpectedLoop);
}

#[test]
fn truncated_program_is_fatal() {
    let fault = run("program int A; begin A=1;", vec![]).expect_err("must fail");
    assert_eq!(fault.kind, FaultKind::ExpectedEnd);
}

#[test]
fn printing_pass_collects_canonical_lines() {
    let tree = init_parser(
        scan("program int A,B; begin A=3; if (A>2) then B=A*2; else B=0; end; write A,B; end"),
        vec![],
    )
    .expect("program should parse");
    assert_eq!(
        tree.statements,
        vec![
            "program".to_string(),
            "int A, B;".to_string(),
            "begin".to_string(),
            "A = 3;".to_string(),
            "if (A > 2) then".to_string(),
            "B = A * 2;".to_string(),
            "else".to_string(),
            "B = 0;".to_string(),
            "end;".to_string(),
            "write A, B;".to_string(),
            "end".to_string(),
        ]
    );
}

#[test]
fn printing_pass_reports_grammar_faults() {
    let fault = init_parser(scan("program int A begin end"), vec![]).expect_err("must fail");
    assert_eq!(fault.kind, FaultKind::ExpectedSemicolon);
}

#[test]
fn renders_decimal_values_exactly() {
    assert_eq!(int_to_string(0), "0");
    assert_eq!(int_to_string(42), "42");
    assert_eq!(int_to_string(-5), "-5");
    assert_eq!(int_to_string(2147483647), "2147483647");
    assert_eq!(int_to_string(-2147483648), "-2147483648");
}

#[test]
fn cursor_primitives_navigate_and_bind() {
    let mut tree = ParseTree {
        tokens: scan("program end"),
        memory: Vec::new(),
        current_statement: String::new(),
        statements: Vec::new(),
        context: Vec::new(),
        state: 0,
        depth: 0,
        input: Vec::new(),
        input_pos: 0,
        output: Vec::new(),
        fuel: 0,
    };
    assert_eq!(*tree.get_token(), Token::Program);
    tree.next();
    assert_eq!(*tree.get_token(), Token::End);
    tree.set_state(0);
    assert_eq!(*tree.get_token(), Token::Program);
    assert_eq!(tree.get_depth(), 0);
    tree.descend();
    assert_eq!(tree.get_depth(), 1);
    tree.ascend();
    assert_eq!(tree.get_depth(), 0);
    tree.insert_variable("X".to_string(), 3);
    tree.insert_variable("Y".to_string(), 4);
    tree.insert_variable("X".to_string(), 5);
    assert_eq!(tree.retrieve_variable("X"), 5);
    assert_eq!(tree.retrieve_variable("Y"), 4);
    assert_eq!(tree.memory.len(), 2);
}

#[test]
fn identifier_and_integer_retrieval() {
    let tree = ParseTree {
        tokens: scan("AB12 34"),
        memory: Vec::new(),
        current_statement: String::new(),
        statements: Vec::new(),
        context: Vec::new(),
        state: 0,
        depth: 0,
        input: Vec::new(),
        input_pos: 0,
        output: Vec::new(),
        fuel: 0,
    };
    assert_eq!(tree.retrieve_identifier(), "AB12");
    let mut tree = tree;
    tree.next();
    assert_eq!(tree.retrieve_integer(), 34);
}

#[test]
fn statement_recording_primitives() {
    let mut tree = ParseTree {
        tokens: scan(""),
        memory: Vec::new(),
        current_statement: String::new(),
        statements: Vec::new(),
        context: Vec::new(),
        state: 0,
        depth: 0,
        input: Vec::new(),
        input_pos: 0,
        output: Vec::new(),
        fuel: 0,
    };
    tree.push_statement("program".to_string());
    tree.current_statement = "int A;".to_string();
    tree.fetch_current_statement();
    assert_eq!(
        tree.statements,
        vec!["program".to_string(), "int A;".to_string()]
    );
    assert_eq!(tree.current_statement, "");
}
