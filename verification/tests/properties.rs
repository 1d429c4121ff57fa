use simple_interpreter::default_evaluate_operation;
use simple_interpreter::ArityMap;
use simple_interpreter::DefaultOps;
use simple_interpreter::EvalError;
use simple_interpreter::Interpreter;
use simple_interpreter::Lexer;
use simple_interpreter::LiteralMap;
use simple_interpreter::ParseError;
use simple_interpreter::PostfixParser;
use simple_interpreter::PriorityMap;
use simple_interpreter::Token::AndOp;
use simple_interpreter::Token::ConstVal;
use simple_interpreter::Token::LeftBrace;
use simple_interpreter::Token::NotOp;
use simple_interpreter::Token::OrOp;
use simple_interpreter::Token::RightBrace;
use simple_interpreter::Token::XorOp;

fn default_literals() -> LiteralMap {
    let mut m = LiteralMap::new();
    m.insert(String::from("&"), AndOp);
    m.insert(String::from("|"), OrOp);
    m.insert(String::from("^"), XorOp);
    m.insert(String::from("~"), NotOp);
    m.insert(String::from("("), LeftBrace);
    m.insert(String::from(")"), RightBrace);
    m
}

fn default_priorities() -> PriorityMap {
    let mut m = PriorityMap::new();
    m.insert(OrOp, 1);
    m.insert(XorOp, 1);
    m.insert(AndOp, 2);
    m.insert(NotOp, 3);
    m
}

fn default_arities() -> ArityMap {
    let mut m = ArityMap::new();
    m.insert(OrOp, 2);
    m.insert(XorOp, 2);
    m.insert(AndOp, 2);
    m.insert(NotOp, 1);
    m
}

fn default_interpreter() -> Interpreter<DefaultOps> {
    Interpreter::new(
        default_literals(),
        default_priorities(),
        default_arities(),
        DefaultOps,
    )
}

#[test]
fn precedence_groups_and_before_or() {
    let lexer = Lexer::new(default_literals());
    let parser = PostfixParser::new(default_priorities());
    let infix = lexer.tokenize("ab|c5&05").unwrap();
    assert_eq!(
        parser.parse(infix).unwrap(),
        vec![ConstVal(0xab), ConstVal(0xc5), ConstVal(0x05), AndOp, OrOp]
    );
}

#[test]
fn braces_override_precedence() {
    let interpreter = default_interpreter();
    let grouped = interpreter.evaluate("(ab|c5)&05").unwrap();
    let plain = interpreter.evaluate("ab|c5&05").unwrap();
    assert_eq!(plain, 0xaf);
    assert_eq!(grouped, 0x05);
    assert_ne!(grouped, plain);
}

#[test]
fn evaluating_twice_gives_the_same_result() {
    let interpreter = default_interpreter();
    let first = interpreter.evaluate("~3f|ab &( c5^10 ) ");
    let second = interpreter.evaluate("~3f|ab &( c5^10 ) ");
    assert_eq!(first, second);
    assert_eq!(first.unwrap(), 0xc1);
}

#[test]
fn error_variants_name_the_failing_stage() {
    let interpreter = default_interpreter();
    assert!(matches!(
        interpreter.evaluate("~3f|ab &( c5^10 )) "),
        Err(EvalError::Parse(ParseError::ExtraClosingBrace))
    ));
    assert!(matches!(
        interpreter.evaluate("~3f|ab &) c5^10 ( "),
        Err(EvalError::Parse(ParseError::ExtraClosingBrace))
    ));
    assert!(matches!(
        interpreter.evaluate("~3f|ab &&( c5^10 ) "),
        Err(EvalError::TooFewOperands)
    ));
    assert!(matches!(
        interpreter.evaluate("~3f|ab bc &( c5^10 ) "),
        Err(EvalError::Unbalanced)
    ));
    assert!(matches!(
        interpreter.evaluate("g5"),
        Err(EvalError::Lex(_))
    ));
    assert!(matches!(
        interpreter.evaluate(""),
        Err(EvalError::Unbalanced)
    ));
}

#[test]
fn lex_error_names_the_offending_segment() {
    let lexer = Lexer::new(default_literals());
    let e = lexer.tokenize("g5").unwrap_err();
    assert_eq!(e.segment, "g");
    let e = lexer.tokenize("m55").unwrap_err();
    assert_eq!(e.segment, "m");
    let e = lexer.tokenize("ff,33").unwrap_err();
    assert_eq!(e.segment, ",");
}

#[test]
fn hex_literal_must_fit_one_byte() {
    let lexer = Lexer::new(default_literals());
    assert!(lexer.tokenize("100").is_err());
    assert_eq!(lexer.tokenize("0ff").unwrap(), vec![ConstVal(0xff)]);
    let interpreter = default_interpreter();
    assert_eq!(interpreter.evaluate("ff").unwrap(), 0xff);
}

#[test]
fn unmatched_open_brace_fails_in_the_evaluator() {
    let interpreter = default_interpreter();
    assert!(matches!(
        interpreter.evaluate("(ab"),
        Err(EvalError::Unregistered)
    ));
}

#[test]
fn display_text_round_trips() {
    let lexer = Lexer::new(default_literals());
    let tokens = lexer.tokenize("~3f|ab &( c5^10 ) ").unwrap();
    let text = lexer.to_text(&tokens).unwrap();
    assert_eq!(text, "~ 3f | ab & ( c5 ^ 10 ) ");
    assert_eq!(lexer.tokenize(&text).unwrap(), tokens);
}

#[test]
fn fully_parenthesized_expression_evaluates() {
    let interpreter = default_interpreter();
    assert_eq!(
        interpreter.evaluate("((~3f)|(ab&(c5^10)))").unwrap(),
        0xc1
    );
    assert_eq!(interpreter.evaluate("(5a^5a)").unwrap(), 0x00);
}

#[test]
fn default_operation_is_bitwise() {
    let mut stack = vec![0x0f_u8, 0x3c_u8];
    assert_eq!(
        default_evaluate_operation(&mut stack.clone(), &OrOp).unwrap(),
        0x3f
    );
    assert_eq!(
        default_evaluate_operation(&mut stack.clone(), &XorOp).unwrap(),
        0x33
    );
    assert_eq!(
        default_evaluate_operation(&mut stack.clone(), &AndOp).unwrap(),
        0x0c
    );
    stack.clear();
    assert!(matches!(
        default_evaluate_operation(&mut stack, &NotOp),
        Err(EvalError::TooFewOperands)
    ));
    let mut two = vec![1_u8, 2_u8];
    assert!(matches!(
        default_evaluate_operation(&mut two, &LeftBrace),
        Err(EvalError::Unhandled)
    ));
}

#[test]
fn later_literal_entry_shadows_an_earlier_one() {
    let mut m = default_literals();
    m.insert(String::from("&"), OrOp);
    let lexer = Lexer::new(m);
    assert_eq!(lexer.try_token_from("&").unwrap(), OrOp);
}

#[test]
fn operator_without_arity_entry_is_rejected() {
    let mut arities = ArityMap::new();
    arities.insert(OrOp, 2);
    arities.insert(AndOp, 2);
    arities.insert(NotOp, 1);
    let interpreter = Interpreter::new(
        default_literals(),
        default_priorities(),
        arities,
        DefaultOps,
    );
    assert!(matches!(
        interpreter.evaluate("ab^cd"),
        Err(EvalError::Unregistered)
    ));
}
