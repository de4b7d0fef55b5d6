use pulsar::frontend::ast::{Decl, DeclValue, ExprValue, LiquidTypeValue, StmtType, StmtValue, TypeValue};
use pulsar::frontend::lexer::Lexer;
use pulsar::frontend::parser::parse_tokens;
use pulsar::frontend::token::{Token, TokenType};
use pulsar::frontend::type_inferer::{program_inferable, InferError, TermV, TermValue, TypeInferer};
use pulsar::utils::error::{ErrorCode, ErrorManager, Level, Style};
use pulsar::utils::format::render_lines;
use pulsar::utils::loc::Source;

fn lex(text: &str, errors: &mut ErrorManager) -> Option<Vec<Token>> {
    let source = Source::file("test.plsr".to_string(), text.to_string());
    Lexer::new(source).lex(errors)
}

fn parse(text: &str, errors: &mut ErrorManager) -> Option<Vec<Decl>> {
    let tokens = lex(text, errors)?;
    parse_tokens(tokens, errors)
}

fn infer(program: &Vec<Decl>, errors: &mut ErrorManager) -> Option<TypeInferer> {
    assert!(program_inferable(program));
    TypeInferer::new().infer(program, errors)
}

fn kinds(tokens: &[Token]) -> Vec<TokenType> {
    tokens.iter().map(|t| t.ty).collect()
}

#[test]
fn lexes_a_function_header() {
    let mut errors = ErrorManager::with_max_count(10);
    let tokens = lex("func f(x: Int64) -> (y: Int64) {", &mut errors).unwrap();
    assert_eq!(
        kinds(&tokens),
        vec![
            TokenType::Func,
            TokenType::Identifier,
            TokenType::LeftPar,
            TokenType::Identifier,
            TokenType::Colon,
            TokenType::Identifier,
            TokenType::RightPar,
            TokenType::Arrow,
            TokenType::LeftPar,
            TokenType::Identifier,
            TokenType::Colon,
            TokenType::Identifier,
            TokenType::RightPar,
            TokenType::LeftBrace,
        ]
    );
    assert_eq!(tokens[1].value, "f");
    assert_eq!(tokens[1].loc.line, 1);
    assert_eq!(tokens[1].loc.col, 6);
    assert!(!errors.has_errors());
}

#[test]
fn lexes_integers_dividers_and_newlines() {
    let mut errors = ErrorManager::with_max_count(10);
    let tokens = lex("let a = 42\n---\n", &mut errors).unwrap();
    assert_eq!(
        kinds(&tokens),
        vec![
            TokenType::Let,
            TokenType::Identifier,
            TokenType::Assign,
            TokenType::Integer,
            TokenType::Newline,
            TokenType::Divider,
            TokenType::Newline,
        ]
    );
    assert_eq!(tokens[3].value, "42");
    assert_eq!(tokens[5].loc.line, 2);
    assert_eq!(tokens[5].loc.col, 1);
}

#[test]
fn lexer_reports_an_unrecognized_character() {
    let mut errors = ErrorManager::with_max_count(10);
    assert!(lex("let a = $", &mut errors).is_none());
    assert_eq!(errors.errors().len(), 1);
    let error = &errors.errors()[0];
    assert!(error.code == ErrorCode::UnrecognizedCharacter);
    assert!(error.level == Level::Error);
    assert!(error.style == Style::Primary);
}

#[test]
fn lexes_nothing_from_blank_text() {
    let mut errors = ErrorManager::with_max_count(10);
    assert_eq!(lex("   ", &mut errors).unwrap().len(), 0);
    assert!(!errors.has_errors());
}

#[test]
fn parses_a_function() {
    let mut errors = ErrorManager::with_max_count(10);
    let program = parse(
        "func main(x: Int64) -> (y: Int64) {\n    let z = x + 1\n    y = z * 2\n}\n",
        &mut errors,
    )
    .unwrap();
    assert_eq!(program.len(), 1);
    match &program[0].value {
        DeclValue::Function { name, inputs, outputs, body, .. } => {
            assert_eq!(name.value, "main");
            assert_eq!(inputs.len(), 1);
            assert_eq!(inputs[0].0.value, "x");
            assert_eq!(inputs[0].1.to_text(), "Int64");
            assert_eq!(outputs.len(), 1);
            assert_eq!(outputs[0].0.value, "y");
            assert_eq!(body.len(), 2);
            match &body[0].value {
                StmtValue::Let { name, value, .. } => {
                    assert_eq!(name.value, "z");
                    assert_eq!(value.to_text(), "(x + 1)");
                    assert!(matches!(value.value, ExprValue::InfixBop(_, _, _)));
                }
                _ => panic!("expected a let"),
            }
            match &body[1].value {
                StmtValue::Assign(lhs, _, rhs) => {
                    assert_eq!(lhs.to_text(), "y");
                    assert_eq!(rhs.to_text(), "(z * 2)");
                }
                _ => panic!("expected an assignment"),
            }
        }
    }
    assert!(!errors.has_errors());
}

#[test]
fn parses_precedence_of_operators() {
    let mut errors = ErrorManager::with_max_count(10);
    let program =
        parse("func f() {\n    let a = 1 + 2 * 3\n    let b = a[1 + 1]\n}\n", &mut errors).unwrap();
    match &program[0].value {
        DeclValue::Function { body, .. } => {
            match &body[0].value {
                StmtValue::Let { value, .. } => assert_eq!(value.to_text(), "(1 + (2 * 3))"),
                _ => panic!("expected a let"),
            }
            match &body[1].value {
                StmtValue::Let { value, .. } => assert_eq!(value.to_text(), "(a[(1 + 1)])"),
                _ => panic!("expected a let"),
            }
        }
    }
}

#[test]
fn parses_array_types_and_literals() {
    let mut errors = ErrorManager::with_max_count(10);
    let program =
        parse("func f(a: Int64[4]) {\n    let b = [1, 2, 3]\n    let c = [0, ...]\n}\n", &mut errors)
            .unwrap();
    match &program[0].value {
        DeclValue::Function { inputs, body, .. } => {
            assert_eq!(inputs[0].1.to_text(), "Int64[4]");
            match &body[0].value {
                StmtValue::Let { value, .. } => assert_eq!(value.to_text(), "[1, 2, 3]"),
                _ => panic!("expected a let"),
            }
            match &body[1].value {
                StmtValue::Let { value, .. } => assert_eq!(value.to_text(), "[0, ...]"),
                _ => panic!("expected a let"),
            }
        }
    }
}

#[test]
fn parser_reports_a_missing_function_name() {
    let mut errors = ErrorManager::with_max_count(10);
    assert!(parse("func (x: Int64) {\n}\n", &mut errors).is_none());
    assert!(errors.has_errors());
    assert!(errors.errors()[0].code == ErrorCode::UnexpectedToken);
}

#[test]
fn parser_rejects_a_statement_at_top_level() {
    let mut errors = ErrorManager::with_max_count(10);
    assert!(parse("let a = 1\n", &mut errors).is_none());
    assert!(errors.has_errors());
}

#[test]
fn infers_integer_arithmetic() {
    let mut errors = ErrorManager::with_max_count(10);
    let program =
        parse("func f(x: Int64) -> (y: Int64) {\n    let z = x + 1\n    y = z\n}\n", &mut errors)
            .unwrap();
    let inferred = infer(&program, &mut errors).unwrap();
    assert!(!errors.has_errors());
    for c in inferred.type_constraints.iter() {
        let e = &inferred.terms[c.expected].value;
        let a = &inferred.terms[c.actual].value;
        assert!(matches!(e, TermValue::Int64));
        assert!(matches!(a, TermValue::Int64));
    }
    assert!(inferred.type_constraints.len() > 0);
}

#[test]
fn infers_the_element_type_of_a_subscript() {
    let mut errors = ErrorManager::with_max_count(10);
    let program = parse(
        "func f(a: Int64[4]) -> (y: Int64) {\n    let b = [1, 2, 3, 4]\n    y = a[b[0]]\n}\n",
        &mut errors,
    )
    .unwrap();
    let inferred = infer(&program, &mut errors).unwrap();
    assert!(!errors.has_errors());
    for c in inferred.type_constraints.iter() {
        assert!(!matches!(inferred.terms[c.expected].value, TermValue::Var(_, _)));
    }
    for c in inferred.liquid_constraints.iter() {
        assert!(inferred.liquids[c.expected].value == inferred.liquids[c.actual].value);
    }
}

#[test]
fn reports_an_unbound_name() {
    let mut errors = ErrorManager::with_max_count(10);
    let program = parse("func f() {\n    let a = b + 1\n}\n", &mut errors).unwrap();
    assert!(infer(&program, &mut errors).is_none());
    assert_eq!(errors.errors().len(), 1);
    assert!(errors.errors()[0].code == ErrorCode::UnboundName);
    assert_eq!(errors.errors()[0].message, "Unbound function or variable `b`");
}

#[test]
fn reports_a_failure_to_unify() {
    let mut errors = ErrorManager::with_max_count(10);
    let program = parse("func f() {\n    let a = [1, 2]\n    let b = a + 1\n}\n", &mut errors).unwrap();
    assert!(infer(&program, &mut errors).is_none());
    let first = &errors.errors()[0];
    assert!(first.code == ErrorCode::UnificationFailure);
    assert!(first.style == Style::Primary);
    assert_eq!(first.message, "Failed to unify types `Int64` and `Int64[2]`");
    assert_eq!(first.explain.as_deref(), Some("Expected `Int64` here,"));
    let second = &errors.errors()[1];
    assert!(second.style == Style::Secondary);
    assert_eq!(second.explain.as_deref(), Some("but received `Int64[2]` here."));
}

#[test]
fn reports_sizes_that_differ() {
    let mut errors = ErrorManager::with_max_count(10);
    let program =
        parse("func f(a: Int64[4]) {\n    let b = [1, 2]\n    a = b\n}\n", &mut errors).unwrap();
    assert!(infer(&program, &mut errors).is_none());
    let first = &errors.errors()[0];
    assert!(first.code == ErrorCode::UnificationFailure);
    assert_eq!(first.message, "Failed to unify types `4` and `2`");
}

#[test]
fn unconstrained_variables_are_not_ambiguous() {
    let mut errors = ErrorManager::with_max_count(10);
    let program = parse("func f() {\n    let a = []\n    let b = [...]\n}\n", &mut errors).unwrap();
    assert!(infer(&program, &mut errors).is_some());
    assert!(!errors.has_errors());
}

#[test]
fn reports_an_unresolved_type() {
    let mut errors = ErrorManager::with_max_count(10);
    let program =
        parse("func f() {\n    let a = [...]\n    let b = [...]\n    a = b\n}\n", &mut errors)
            .unwrap();
    assert!(infer(&program, &mut errors).is_none());
    let first = &errors.errors()[0];
    assert!(first.code == ErrorCode::AmbiguousType);
    assert_eq!(first.message, "Ambiguous type `'t0`");
    assert_eq!(first.explain.as_deref(), Some("Type variable not resolved (bug?)"));
}

#[test]
fn functions_see_each_other() {
    let mut errors = ErrorManager::with_max_count(10);
    let program = parse(
        "func f(x: Int64) -> (y: Int64) {\n    y = x\n}\nfunc g() {\n    let h = f\n}\n",
        &mut errors,
    )
    .unwrap();
    let inferred = infer(&program, &mut errors).unwrap();
    assert!(!errors.has_errors());
    assert!(inferred.terms.iter().any(|t| matches!(t.value, TermValue::Function(_, _))));
}

#[test]
fn programs_with_calls_are_not_inferable() {
    let mut errors = ErrorManager::with_max_count(10);
    let program = parse("func f() {\n    let a = g(1)\n}\n", &mut errors).unwrap();
    assert!(!program_inferable(&program));
    let program = parse("func f() {\n    let a = 1\n    ---\n}\n", &mut errors).unwrap();
    assert!(!program_inferable(&program));
}

#[test]
fn term_text_shows_types() {
    let mut errors = ErrorManager::with_max_count(10);
    let program = parse("func f(a: Int64[3]) {\n}\n", &mut errors).unwrap();
    let inferred = infer(&program, &mut errors).unwrap();
    let texts: Vec<String> = (0..inferred.terms.len()).map(|i| inferred.term_text(i)).collect();
    assert!(texts.contains(&"Int64[3]".to_string()));
    assert!(texts.contains(&"(Int64[3]) -> ()".to_string()));
    let _ = TermV::Int64;
}

#[test]
fn infer_checked_names_each_failure() {
    let mut errors = ErrorManager::with_max_count(10);
    let program = parse("func f() {\n    let a = b + 1\n}\n", &mut errors).unwrap();
    let result = TypeInferer::new().infer_checked(&program, &mut errors);
    assert!(matches!(result, Err(InferError::UnboundName)));

    let mut errors = ErrorManager::with_max_count(10);
    let program = parse("func f() {\n    let a = [1, 2]\n    let b = a + 1\n}\n", &mut errors).unwrap();
    let result = TypeInferer::new().infer_checked(&program, &mut errors);
    assert!(matches!(result, Err(InferError::UnificationFailure)));

    let mut errors = ErrorManager::with_max_count(10);
    let program =
        parse("func f() {\n    let a = [...]\n    let b = [...]\n    a = b\n}\n", &mut errors)
            .unwrap();
    let result = TypeInferer::new().infer_checked(&program, &mut errors);
    assert!(matches!(result, Err(InferError::AmbiguousType)));

    let mut errors = ErrorManager::with_max_count(10);
    let program = parse("func f() {\n    let a = 1 + 2\n}\n", &mut errors).unwrap();
    let result = TypeInferer::new().infer_checked(&program, &mut errors);
    assert!(result.is_ok());
    assert!(!errors.has_errors());
}

#[test]
fn declarations_are_laid_out_in_lines() {
    let mut errors = ErrorManager::with_max_count(10);
    let program = parse(
        "func f(a: Int64[3]) -> (b: Int64) {\n    let x: Int64 = a[0] + 1\n    b = x\n}\nfunc g() {\n}\n",
        &mut errors,
    )
    .unwrap();
    assert_eq!(
        program[0].lines(0),
        vec![
            (0, "func f(a: Int64[3]) -> (b: Int64) {".to_string()),
            (0, String::new()),
            (1, "let x: Int64 = ((a[0]) + 1)".to_string()),
            (1, "b = x".to_string()),
            (0, String::new()),
            (0, "}".to_string()),
        ]
    );
    assert_eq!(
        program[1].lines(2),
        vec![(2, "func g() -> () {".to_string()), (2, "}".to_string())]
    );
    assert_eq!(
        render_lines(&program[0].lines(0)),
        "func f(a: Int64[3]) -> (b: Int64) {\n\n    let x: Int64 = ((a[0]) + 1)\n    b = x\n\n}"
    );
}

#[test]
fn expressions_equal_by_shape_wherever_they_stand() {
    let mut errors = ErrorManager::with_max_count(10);
    let program = parse(
        "func f() {\n    let a = x + g(1, [2, ...])\n    let b = x  +  g(1, [2, ...])\n    let c = x + g(1, [2])\n}\n",
        &mut errors,
    )
    .unwrap();
    let values: Vec<&pulsar::frontend::ast::Expr> = match &program[0].value {
        DeclValue::Function { body, .. } => body
            .iter()
            .map(|stmt| match &stmt.value {
                StmtValue::Let { value, .. } => value,
                _ => panic!("expected let"),
            })
            .collect(),
    };
    assert!(values[0].eq(values[1]));
    assert!(values[1].eq(values[0]));
    assert!(!values[0].eq(values[2]));
    assert!(values[2].eq(values[2]));
}

#[test]
fn statement_kinds_show_their_type() {
    let mut errors = ErrorManager::with_max_count(10);
    let program = parse("func f(a: Int64[2]) {\n}\n", &mut errors).unwrap();
    let ty = match &program[0].value {
        DeclValue::Function { inputs, .. } => inputs[0].1.duplicate(),
    };
    assert_eq!(StmtType::Terminal(ty).to_text(), "Terminal(Int64[2])");
    assert_eq!(StmtType::Nonterminal.to_text(), "Nonterminal");
}

#[test]
fn groups_operators_by_precedence_then_to_the_left() {
    let mut errors = ErrorManager::with_max_count(10);
    let program =
        parse("func f() -> (b: Int64) {\n    b = 1 + 2 * 3 - 4\n}\n", &mut errors).unwrap();
    assert!(!errors.has_errors());
    match &program[0].value {
        DeclValue::Function { body, .. } => match &body[0].value {
            StmtValue::Assign(_, _, rhs) => assert_eq!(rhs.to_text(), "((1 + (2 * 3)) - 4)"),
            _ => panic!("expected an assignment"),
        },
    }
}

#[test]
fn later_array_brackets_wrap_the_type_so_far() {
    let mut errors = ErrorManager::with_max_count(10);
    let program = parse("func f(a: Int64[2][3]) {}\n", &mut errors).unwrap();
    assert!(!errors.has_errors());
    match &program[0].value {
        DeclValue::Function { inputs, .. } => match &inputs[0].1.value {
            TypeValue::Array(element, outer) => {
                assert!(outer.value == LiquidTypeValue::Equal(3));
                match &element.value {
                    TypeValue::Array(inner, size) => {
                        assert!(size.value == LiquidTypeValue::Equal(2));
                        assert!(matches!(inner.value, TypeValue::Int64));
                    }
                    _ => panic!("expected an array element"),
                }
            }
            _ => panic!("expected an array"),
        },
    }
}

#[test]
fn a_filled_array_literal_takes_the_size_it_is_given() {
    let mut errors = ErrorManager::with_max_count(10);
    let program =
        parse("func f() -> (b: Int64[4]) {\n    b = [1, 2, ...]\n}\n", &mut errors).unwrap();
    let inferred = infer(&program, &mut errors).unwrap();
    assert!(!errors.has_errors());
    assert_eq!(inferred.expr_types.len(), 4);
    let literal = *inferred.expr_types.last().unwrap();
    match &inferred.terms[literal].value {
        TermValue::Array(element, size) => {
            assert!(matches!(inferred.terms[*element].value, TermValue::Int64));
            assert!(inferred.liquids[*size].value == LiquidTypeValue::Equal(4));
        }
        _ => panic!("expected an array"),
    }
}

#[test]
fn a_derived_failure_shows_the_inner_types() {
    let mut errors = ErrorManager::with_max_count(10);
    let program =
        parse("func f(a: Int64[2]) {\n    let b = [[1], [2]]\n    a = b\n}\n", &mut errors).unwrap();
    assert!(infer(&program, &mut errors).is_none());
    let all = errors.errors();
    assert!(all[0].code == ErrorCode::UnificationFailure);
    assert!(all[0].style == Style::Primary);
    let last = &all[all.len() - 1];
    assert!(last.style == Style::Secondary);
    assert!(last.level == Level::Info);
    assert!(last.code == ErrorCode::UnificationFailure);
}

#[test]
fn unicode_spaces_separate_tokens() {
    let mut errors = ErrorManager::with_max_count(10);
    let tokens = lex("func\u{3000}f", &mut errors).unwrap();
    assert!(!errors.has_errors());
    assert!(kinds(&tokens) == vec![TokenType::Func, TokenType::Identifier]);
}
