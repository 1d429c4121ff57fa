use simple_interpreter::default_evaluate_operation;
use simple_interpreter::ArityMap;
use simple_interpreter::DefaultOps;
use simple_interpreter::Interpreter;
use simple_interpreter::Lexer;
use simple_interpreter::LiteralMap;
use simple_interpreter::PostfixParser;
use simple_interpreter::PriorityMap;
use simple_interpreter::Token;
use simple_interpreter::Token::AndOp;
use simple_interpreter::Token::ConstVal;
use simple_interpreter::Token::LeftBrace;
use simple_interpreter::Token::NotOp;
use simple_interpreter::Token::OrOp;
use simple_interpreter::Token::RightBrace;
use simple_interpreter::Token::XorOp;

fn literal_token_map() -> LiteralMap {
    let mut m = LiteralMap::new();
    m.insert(String::from("&"), AndOp);
    m.insert(String::from("|"), OrOp);
    m.insert(String::from("^"), XorOp);
    m.insert(String::from("~"), NotOp);
    m.insert(String::from("("), LeftBrace);
    m.insert(String::from(")"), RightBrace);
    m
}

fn oper_priority_map() -> PriorityMap {
    let mut m = PriorityMap::new();
    m.insert(OrOp, 1);
    m.insert(XorOp, 1);
    m.insert(AndOp, 2);
    m.insert(NotOp, 3);
    m
}

fn oper_args_count_map() -> ArityMap {
    let mut m = ArityMap::new();
    m.insert(OrOp, 2);
    m.insert(XorOp, 2);
    m.insert(AndOp, 2);
    m.insert(NotOp, 1);
    m
}

fn interpreter() -> Interpreter<DefaultOps> {
    Interpreter::new(
        literal_token_map(),
        oper_priority_map(),
        oper_args_count_map(),
        DefaultOps,
    )
}

#[test]
fn evaluate_expr_works() {
    let interpreter = interpreter();

    let x = interpreter.evaluate("~3f|ab &( c5^10 ) ");
    assert!(x.is_ok());
    assert_eq!(x.unwrap(), 0xc1_u8);

    assert!(interpreter.evaluate("~3f|ab &( c5^10 )) ").is_err());
    assert!(interpreter.evaluate("~3f|ab &) c5^10 ( ").is_err());
    assert!(interpreter.evaluate("~3f|ab &&( c5^10 ) ").is_err());
    assert!(interpreter.evaluate("~3f|ab bc &( c5^10 ) ").is_err());
}

#[test]
fn default_evaluate_operation_fn_works() {
    let stack = vec![0x11_u8, 0x0f_u8];
    assert_eq!(
        default_evaluate_operation(&mut stack.clone(), &AndOp).unwrap(),
        0x01_u8
    );
    assert_eq!(
        default_evaluate_operation(&mut stack.clone(), &NotOp).unwrap(),
        0xf0_u8
    );
}

#[test]
fn eval_op_method_works() {
    let mut stack = vec![0x11_u8, 0x0f_u8];

    let interpreter = interpreter();

    assert_eq!(
        interpreter.eval_op(&mut stack.clone(), &AndOp).unwrap(),
        0x01_u8
    );
    assert_eq!(
        interpreter.eval_op(&mut stack.clone(), &NotOp).unwrap(),
        0xf0_u8
    );
    stack.pop();
    assert!(interpreter.eval_op(&mut stack.clone(), &AndOp).is_err());
}

#[test]
fn tokenize_from_strings_vec_works() {
    let lexer = Lexer::new(literal_token_map());

    assert_eq!(
        lexer.tokenize("ab &(c5 ^10 ) ").unwrap(),
        vec![
            ConstVal(0xAB),
            AndOp,
            LeftBrace,
            ConstVal(0xC5),
            XorOp,
            ConstVal(0x10),
            RightBrace
        ]
    );
    assert!(lexer.tokenize("a b").is_ok());
    assert!(lexer.tokenize("g5").is_err());
    assert!(lexer.tokenize("ff,33").is_err());
}

#[test]
fn split_on_strings_works() {
    assert_eq!(
        Lexer::split("~3f|ab &( c5^10 ) "),
        vec!["~", "3f", "|", "ab", "&", "(", "c5", "^", "10", ")"]
    );
}

#[test]
fn try_token_from_str_works() {
    let lexer = Lexer::new(literal_token_map());

    assert_eq!(lexer.try_token_from("&").unwrap(), Token::AndOp);
    assert_eq!(lexer.try_token_from("~").unwrap(), Token::NotOp);
    assert_eq!(lexer.try_token_from("ff").unwrap(), Token::ConstVal(0xff));
    assert!(lexer.try_token_from("m55").is_err());
}

#[test]
fn parse_to_postfix_works() {
    let lexer = Lexer::new(literal_token_map());
    let tokens_infix = lexer.tokenize("~3f| ab &( 4d | 05)");
    assert!(tokens_infix.is_ok());
    let parser = PostfixParser::new(oper_priority_map());
    assert_eq!(
        parser.parse(tokens_infix.unwrap()).unwrap(),
        lexer.tokenize("3f ~ ab 4d 05 | & |").unwrap()
    );
}

#[test]
fn get_oper_priority_method_works() {
    let parser = PostfixParser::new(oper_priority_map());
    assert_eq!(parser.get_oper_priority(&AndOp), Some(2));
    assert_eq!(parser.get_oper_priority(&OrOp), Some(1));
    assert_eq!(parser.get_oper_priority(&ConstVal(0xff)), None);
}
