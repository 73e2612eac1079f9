use infix_calc::calc::{calculate, evaluate, CalcError, EvalError, Expr};
use infix_calc::convert::{parse, to_postfix, ConvertError, ParseError};
use infix_calc::lexeme::{classify, is_number};
use infix_calc::token::{priority, OperandType, Token};

fn chars(s: &str) -> Vec<char> {
    s.chars().collect()
}

fn value_of(e: &Expr) -> f32 {
    match e {
        Expr::Num(v) => v.iter().collect::<String>().parse::<f32>().unwrap(),
        Expr::Bin(k, l, r) => {
            let (a, b) = (value_of(l), value_of(r));
            match k {
                OperandType::Add => a + b,
                OperandType::Sub => a - b,
                OperandType::Mul => a * b,
                OperandType::Div => a / b,
                _ => panic!("not a binary operator"),
            }
        }
    }
}

fn result_of(line: &str) -> Option<f32> {
    evaluate(line).unwrap().map(|e| value_of(&e))
}

fn shape(tokens: &[Token]) -> Vec<(OperandType, String)> {
    tokens
        .iter()
        .map(|t| (t.operand_type, t.value.iter().collect::<String>()))
        .collect()
}

#[test]
fn one_plus_two_converts_and_evaluates() {
    let tokens = parse("1+2").unwrap();
    assert_eq!(
        shape(&tokens),
        vec![
            (OperandType::Number, "1".to_string()),
            (OperandType::Number, "2".to_string()),
            (OperandType::Add, String::new()),
        ]
    );
    let e = calculate(&tokens).unwrap().unwrap();
    assert_eq!(value_of(&e), 3.0);
}

#[test]
fn nested_parentheses_scenario() {
    assert_eq!(result_of("4*(6-3)+(8-6)/2"), Some(13.0));
}

#[test]
fn subtraction_groups_from_the_left() {
    assert_eq!(result_of("10-2-3"), Some(5.0));
}

#[test]
fn division_groups_from_the_left() {
    assert_eq!(result_of("64/4/2"), Some(8.0));
}

#[test]
fn multiplication_binds_tighter() {
    assert_eq!(result_of("2+3*4"), Some(14.0));
    assert_eq!(result_of("2*3+4"), Some(10.0));
}

#[test]
fn parentheses_override_precedence() {
    assert_eq!(result_of("(2+3)*4"), Some(20.0));
    assert_eq!(result_of("10-(2-3)"), Some(11.0));
}

#[test]
fn division_by_zero_is_infinite() {
    let v = result_of("6/0").unwrap();
    assert!(v.is_infinite());
    assert!(v > 0.0);
}

#[test]
fn unclosed_parenthesis_is_unbalanced() {
    assert!(matches!(parse("(1+2"), Err(ParseError::Unbalanced)));
    assert!(matches!(
        evaluate("(1+2"),
        Err(CalcError::Parse(ParseError::Unbalanced))
    ));
}

#[test]
fn stray_closing_parenthesis_is_unbalanced() {
    assert!(matches!(parse("1+2)"), Err(ParseError::Unbalanced)));
}

#[test]
fn empty_input_has_no_result() {
    assert_eq!(parse("").unwrap().len(), 0);
    assert!(matches!(evaluate(""), Ok(None)));
    assert!(matches!(evaluate("   "), Ok(None)));
}

#[test]
fn other_characters_are_skipped() {
    assert_eq!(result_of(" 1 + x2 "), Some(3.0));
    assert!(matches!(evaluate("abc"), Ok(None)));
}

#[test]
fn fractional_literals() {
    let tokens = parse("1.5*2").unwrap();
    assert_eq!(tokens[0].value, chars("1.5"));
    assert_eq!(result_of("1.5*2"), Some(3.0));
}

#[test]
fn missing_operand_underflows() {
    assert!(matches!(
        evaluate("1+"),
        Err(CalcError::Eval(EvalError::Underflow))
    ));
    assert!(matches!(
        evaluate("*"),
        Err(CalcError::Eval(EvalError::Underflow))
    ));
}

#[test]
fn extra_operands_report_the_top() {
    assert_eq!(result_of("1 2"), Some(2.0));
}

#[test]
fn same_text_same_result() {
    let line = "4*(6-3)+(8-6)/2";
    assert_eq!(result_of(line), result_of(line));
    assert_eq!(shape(&parse(line).unwrap()), shape(&parse(line).unwrap()));
}

#[test]
fn priorities_of_operators() {
    assert_eq!(priority(OperandType::Add), 0);
    assert_eq!(priority(OperandType::Sub), 0);
    assert_eq!(priority(OperandType::Mul), 1);
    assert_eq!(priority(OperandType::Div), 1);
    assert_eq!(priority(OperandType::Open), 2);
    assert_eq!(priority(OperandType::Close), 2);
}

#[test]
fn token_new_keeps_its_parts() {
    let t = Token::new(OperandType::Number, chars("42"));
    assert_eq!(t.operand_type, OperandType::Number);
    assert_eq!(t.value, chars("42"));
}

#[test]
fn numeric_literals_are_recognised() {
    assert!(is_number(&chars("0")));
    assert!(is_number(&chars("123")));
    assert!(is_number(&chars("3.14")));
    assert!(!is_number(&chars("")));
    assert!(!is_number(&chars("1.")));
    assert!(!is_number(&chars(".5")));
    assert!(!is_number(&chars("1.2.3")));
    assert!(!is_number(&chars("+")));
}

#[test]
fn lexemes_are_classified() {
    assert_eq!(classify(&chars("7.5")), Some(OperandType::Number));
    assert_eq!(classify(&chars("+")), Some(OperandType::Add));
    assert_eq!(classify(&chars("-")), Some(OperandType::Sub));
    assert_eq!(classify(&chars("*")), Some(OperandType::Mul));
    assert_eq!(classify(&chars("/")), Some(OperandType::Div));
    assert_eq!(classify(&chars("(")), Some(OperandType::Open));
    assert_eq!(classify(&chars(")")), Some(OperandType::Close));
    assert_eq!(classify(&chars("x")), None);
    assert_eq!(classify(&chars("++")), None);
}

#[test]
fn invalid_lexeme_is_refused() {
    let lexemes = vec![chars("("), chars("1"), chars("?"), chars(")")];
    assert!(matches!(
        to_postfix(&lexemes),
        Err(ConvertError::InvalidLexeme)
    ));
}

#[test]
fn postfix_of_mixed_precedence() {
    let lexemes: Vec<Vec<char>> = ["(", "2", "+", "3", "*", "4", ")"]
        .iter()
        .map(|s| chars(s))
        .collect();
    let tokens = to_postfix(&lexemes).unwrap();
    let kinds: Vec<OperandType> = tokens.iter().map(|t| t.operand_type).collect();
    assert_eq!(
        kinds,
        vec![
            OperandType::Number,
            OperandType::Number,
            OperandType::Number,
            OperandType::Mul,
            OperandType::Add,
        ]
    );
}

#[test]
fn parentheses_in_postfix_are_ignored() {
    let tokens = vec![
        Token::new(OperandType::Number, chars("8")),
        Token::new(OperandType::Open, Vec::new()),
        Token::new(OperandType::Number, chars("2")),
        Token::new(OperandType::Close, Vec::new()),
        Token::new(OperandType::Sub, Vec::new()),
    ];
    let e = calculate(&tokens).unwrap().unwrap();
    assert_eq!(value_of(&e), 6.0);
}

#[test]
fn empty_postfix_has_no_value() {
    assert!(matches!(calculate(&Vec::new()), Ok(None)));
}
