use crisp::data::{Builtin, Data, Float, Fragment};
use crisp::interpreter::{init_interpreter, name_of, EvalError, Interpreter, Run, Scope};
use crisp::lexer::LexerError;
use crisp::parser::{parse_program, ParserError, ProgramError};

fn float_worth(float: &Float) -> f64 {
    match float {
        Float::Literal(numeral) => numeral.parse().unwrap(),
        Float::Promoted(integer) => *integer as f64,
        Float::Sum(terms) => match terms.split_first() {
            Some((first, rest)) => rest.iter().fold(float_worth(first), |sum, term| sum + float_worth(term)),
            None => 0.0,
        },
    }
}

fn as_text(fragments: &[Fragment]) -> String {
    let mut text = String::new();
    for fragment in fragments {
        match fragment {
            Fragment::Text(piece) => text.push_str(piece),
            Fragment::Float(float) => text.push_str(&format!("{}", float_worth(float))),
        }
    }
    text
}

fn values_of(code: &str) -> Vec<Data> {
    parse_program(code).unwrap().into_iter().map(Data::from).collect()
}

/// Evaluates the one expression that `code` writes, and gives what it came to
/// and what it showed.
fn evaluated(code: &str) -> (Result<Data, EvalError>, String) {
    let mut values = values_of(code);
    assert_eq!(values.len(), 1);
    let mut interpreter = Interpreter::new(vec![]);
    let outcome = interpreter.eval(values.remove(0));
    (outcome, as_text(interpreter.output()))
}

fn literal(numeral: &str) -> Float {
    Float::Literal(numeral.to_string())
}

#[test]
fn two_integers_add_up_to_an_integer() {
    assert_eq!(evaluated("(+ 1 2)").0, Ok(Data::Int(3)));
    assert_eq!(evaluated("(+ 1 2 3 4)").0, Ok(Data::Int(10)));
    assert_eq!(evaluated("(+ 5)").0, Ok(Data::Int(5)));
}

#[test]
fn an_integer_and_a_float_add_up_to_a_float() {
    let (outcome, _) = evaluated("(+ 1 2.5)");
    assert_eq!(outcome, Ok(Data::Float(Float::Sum(vec![Float::Promoted(1), literal("2.5")]))));
    match outcome {
        Ok(Data::Float(float)) => assert_eq!(float_worth(&float), 3.5),
        _ => unreachable!(),
    }
}

#[test]
fn adding_nothing_gives_zero() {
    assert_eq!(evaluated("(+)").0, Ok(Data::Int(0)));
    assert_eq!(evaluated("(+ )").0, Ok(Data::Int(0)));
}

#[test]
fn integers_before_the_first_float_are_added_as_integers() {
    let (outcome, _) = evaluated("(+ 1 2 0.5 3 0.25)");
    assert_eq!(
        outcome,
        Ok(Data::Float(Float::Sum(vec![
            Float::Promoted(3),
            literal("0.5"),
            Float::Promoted(3),
            literal("0.25"),
        ])))
    );
    match outcome {
        Ok(Data::Float(float)) => assert_eq!(float_worth(&float), 6.75),
        _ => unreachable!(),
    }
}

#[test]
fn a_float_alone_is_added_to_zero() {
    assert_eq!(
        evaluated("(+ 2.5)").0,
        Ok(Data::Float(Float::Sum(vec![Float::Promoted(0), literal("2.5")])))
    );
}

#[test]
fn a_sum_of_floats_is_a_term_of_the_sum_around_it() {
    let (outcome, _) = evaluated("(+ 0.1 (+ 0.2 0.3))");
    let inner = Float::Sum(vec![Float::Promoted(0), literal("0.2"), literal("0.3")]);
    assert_eq!(
        outcome,
        Ok(Data::Float(Float::Sum(vec![Float::Promoted(0), literal("0.1"), inner])))
    );
    match outcome {
        Ok(Data::Float(float)) => assert_eq!(float_worth(&float), 0.0 + 0.1 + (0.0 + 0.2 + 0.3)),
        _ => unreachable!(),
    }
}

#[test]
fn a_sum_that_does_not_fit_wraps_around() {
    assert_eq!(evaluated("(+ 9223372036854775807 1)").0, Ok(Data::Int(i64::MIN)));
    assert_eq!(evaluated("(+ 9223372036854775807 9223372036854775807)").0, Ok(Data::Int(-2)));
}

#[test]
fn nested_sums_are_evaluated_first() {
    assert_eq!(evaluated("(+ 1 (+ 2 3) (+))").0, Ok(Data::Int(6)));
}

#[test]
fn what_is_no_number_cannot_be_added() {
    assert_eq!(
        evaluated("(+ 1 \"a\" 2)").0,
        Err(EvalError::WrongArgumentType(Builtin::Add, Data::Str("a".to_string())))
    );
    assert_eq!(
        evaluated("(+ nil)").0,
        Err(EvalError::WrongArgumentType(Builtin::Add, Data::Nil))
    );
    assert_eq!(
        evaluated("(+ 1.5 print)").0,
        Err(EvalError::WrongArgumentType(Builtin::Add, Data::NativeFunction(Builtin::Print)))
    );
}

#[test]
fn the_first_argument_that_is_no_number_is_the_one_reported() {
    assert_eq!(
        evaluated("(+ 1 nil \"a\")").0,
        Err(EvalError::WrongArgumentType(Builtin::Add, Data::Nil))
    );
}

#[test]
fn the_empty_list_is_nil() {
    assert_eq!(evaluated("()"), (Ok(Data::Nil), String::new()));
}

#[test]
fn an_undefined_name_is_an_error() {
    assert_eq!(
        evaluated("(undefined-name)").0,
        Err(EvalError::UndefinedVariable("undefined-name".to_string()))
    );
    assert_eq!(evaluated("x").0, Err(EvalError::UndefinedVariable("x".to_string())));
}

#[test]
fn what_is_no_operation_cannot_be_called() {
    assert_eq!(evaluated("(1 2 3)").0, Err(EvalError::NotCallable(Data::Int(1))));
    assert_eq!(
        evaluated("(\"print\" 1)").0,
        Err(EvalError::NotCallable(Data::Str("print".to_string())))
    );
    assert_eq!(evaluated("(nil)").0, Err(EvalError::NotCallable(Data::Nil)));
    assert_eq!(evaluated("((+ 1 2) 3)").0, Err(EvalError::NotCallable(Data::Int(3))));
}

#[test]
fn the_arguments_are_evaluated_before_the_head_is_judged() {
    assert_eq!(evaluated("(1 x)").0, Err(EvalError::UndefinedVariable("x".to_string())));
    assert_eq!(
        evaluated("(1 (println \"seen\"))"),
        (Err(EvalError::NotCallable(Data::Int(1))), "seen\n".to_string())
    );
}

#[test]
fn literals_evaluate_to_themselves() {
    let mut interpreter = Interpreter::new(vec![]);
    let literals = vec![
        Data::Int(7),
        Data::Float(literal("2.5")),
        Data::Float(Float::Sum(vec![Float::Promoted(1), literal("2.5")])),
        Data::Str("a".to_string()),
        Data::Nil,
        Data::NativeFunction(Builtin::Add),
    ];
    for data in literals {
        let once = interpreter.eval(data.clone()).unwrap();
        assert_eq!(once, data);
        let twice = interpreter.eval(once).unwrap();
        assert_eq!(twice, data);
    }
    assert!(interpreter.output().is_empty());
}

#[test]
fn a_name_of_the_standard_library_is_its_operation() {
    assert_eq!(evaluated("print").0, Ok(Data::NativeFunction(Builtin::Print)));
    assert_eq!(evaluated("println").0, Ok(Data::NativeFunction(Builtin::Println)));
    assert_eq!(evaluated("+").0, Ok(Data::NativeFunction(Builtin::Add)));
    assert_eq!(name_of(Builtin::Print), "print");
    assert_eq!(name_of(Builtin::Println), "println");
    assert_eq!(name_of(Builtin::Add), "+");
}

#[test]
fn the_head_of_a_call_may_be_computed() {
    assert_eq!(evaluated("((+) 1)").0, Err(EvalError::NotCallable(Data::Int(0))));
}

#[test]
fn print_shows_its_arguments_with_spaces_between() {
    assert_eq!(evaluated("(print \"a\" 1 nil \"b c\")"), (Ok(Data::Nil), "a 1 nil b c".to_string()));
    assert_eq!(evaluated("(print)"), (Ok(Data::Nil), String::new()));
}

#[test]
fn println_ends_the_line() {
    assert_eq!(evaluated("(println \"Hello, World!\")"), (Ok(Data::Nil), "Hello, World!\n".to_string()));
    assert_eq!(evaluated("(println)"), (Ok(Data::Nil), "\n".to_string()));
}

#[test]
fn what_is_shown_is_the_evaluated_argument() {
    assert_eq!(evaluated("(println (+ 1 2))").1, "3\n");
    assert_eq!(evaluated("(println (+ 1 2.5) +)").1, "3.5 #rust/fn\n");
    assert_eq!(evaluated("(println (print \"a\"))").1, "anil\n");
}

#[test]
fn arguments_are_evaluated_from_left_to_right() {
    assert_eq!(evaluated("(+ (+ (print 1)) 2)").1, "1");
    assert_eq!(evaluated("(print (print 1) (print 2) (print 3))").1, "123nil nil nil");
}

#[test]
fn nothing_behind_the_first_error_is_evaluated() {
    assert_eq!(
        evaluated("(print (print \"a\") y (print \"b\") z)"),
        (Err(EvalError::UndefinedVariable("y".to_string())), "a".to_string())
    );
}

#[test]
fn an_error_deep_inside_comes_out_as_it_is() {
    assert_eq!(
        evaluated("(println (+ 1 (+ 2 (3))))"),
        (Err(EvalError::NotCallable(Data::Int(3))), String::new())
    );
}

#[test]
fn a_program_runs_from_its_first_value_to_its_last() {
    let mut interpreter = Interpreter::new(values_of("(print 1) (print 2) 3 (print (+ 1 2))"));
    assert_eq!(interpreter.start(), 0);
    assert_eq!(as_text(interpreter.output()), "123");
}

#[test]
fn the_empty_program_runs_to_its_end() {
    let mut interpreter = Interpreter::new(vec![]);
    assert_eq!(interpreter.start(), 0);
    assert!(interpreter.output().is_empty());
}

#[test]
fn a_program_stops_at_its_first_error() {
    let mut interpreter = Interpreter::new(values_of("(print 1) (x) (print 2) (y)"));
    assert_eq!(interpreter.start(), 1);
    assert_eq!(
        as_text(interpreter.output()),
        "1An error ocurred: Could not find variable \"x\"\n"
    );
}

#[test]
fn a_program_may_be_run_again() {
    let mut interpreter = Interpreter::new(values_of("(print 1)"));
    assert_eq!(interpreter.start(), 0);
    assert_eq!(interpreter.start(), 0);
    assert_eq!(as_text(interpreter.output()), "11");
}

#[test]
fn an_error_says_what_went_wrong() {
    let mut out = Vec::new();
    EvalError::UndefinedVariable("x".to_string()).explain(&mut out);
    assert_eq!(as_text(&out), "Could not find variable \"x\"");
    let mut out = Vec::new();
    EvalError::NotCallable(Data::List(vec![Data::Int(1), Data::Str("a".to_string())])).explain(&mut out);
    assert_eq!(as_text(&out), "Is not a function: (1 \"a\")");
    let mut out = Vec::new();
    EvalError::WrongArgumentType(Builtin::Add, Data::Str("a".to_string())).explain(&mut out);
    assert_eq!(as_text(&out), "attempted to use \"a\" in function + (wrong argument type)");
    let error = EvalError::NotCallable(Data::Float(literal("2.50")));
    let mut out = vec![Fragment::Text("! ".to_string())];
    error.clone().explain(&mut out);
    assert_eq!(as_text(&out), "! Is not a function: 2.5");
}

#[test]
fn a_text_is_read_and_run() {
    let run = init_interpreter(
        "(println \"Hello, World!\") (println \"This should be on another line.\") (println (+ 1 2))",
    );
    assert_eq!(run.status, 0);
    assert_eq!(run.failure, None);
    assert_eq!(as_text(&run.output), "Hello, World!\nThis should be on another line.\n3\n");
}

#[test]
fn a_text_whose_evaluation_fails_ends_with_one() {
    let run = init_interpreter("(print \"a\") (1 2 3) (print \"b\")");
    assert_eq!(run.status, 1);
    assert_eq!(run.failure, None);
    assert_eq!(as_text(&run.output), "aAn error ocurred: Is not a function: 1\n");
}

#[test]
fn a_text_that_cannot_be_nested_ends_with_two() {
    assert_eq!(
        init_interpreter("(print 1))"),
        Run {
            status: 2,
            failure: Some(ProgramError::Parser(ParserError::UnmatchedParenRight)),
            output: vec![],
        }
    );
    assert_eq!(
        init_interpreter("((print 1)"),
        Run {
            status: 2,
            failure: Some(ProgramError::Parser(ParserError::UnmatchedParenLeft)),
            output: vec![],
        }
    );
    assert_eq!(
        init_interpreter("(print 99999999999999999999)"),
        Run { status: 2, failure: Some(ProgramError::IntegerTooLarge), output: vec![] }
    );
}

#[test]
fn a_text_that_cannot_be_cut_into_tokens_ends_with_three() {
    assert_eq!(
        init_interpreter("(print \"a"),
        Run {
            status: 3,
            failure: Some(ProgramError::Lexer(LexerError::UnexpectedEOF)),
            output: vec![],
        }
    );
}

#[test]
fn the_four_ways_to_end_differ() {
    let statuses = [
        init_interpreter("(print 1)").status,
        init_interpreter("(x)").status,
        init_interpreter(")").status,
        init_interpreter("#").status,
    ];
    assert_eq!(statuses, [0, 1, 2, 3]);
}

#[test]
fn an_interpreter_starts_from_the_standard_library_each_time() {
    let mut first = Interpreter::new(values_of("(print 1)"));
    assert_eq!(first.start(), 0);
    let second = Interpreter::new(vec![]);
    assert!(second.output().is_empty());
}

#[test]
fn a_scope_binds_each_name_once() {
    let mut scope = Scope::new();
    let a = "a".to_string();
    let b = "b".to_string();
    assert_eq!(scope.get(&a), None);
    scope.insert(a.clone(), Data::Int(1));
    scope.insert(b.clone(), Data::Int(2));
    assert_eq!(scope.get(&a), Some(&Data::Int(1)));
    assert_eq!(scope.get(&b), Some(&Data::Int(2)));
    scope.insert(a.clone(), Data::Nil);
    assert_eq!(scope.get(&a), Some(&Data::Nil));
    assert_eq!(scope.get(&b), Some(&Data::Int(2)));
    assert_eq!(scope.get(&"c".to_string()), None);
}
