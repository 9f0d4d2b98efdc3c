use interpreter::{classify, CharClass, Construct, Environment, EvalError, Interpreter, Token, Tokenizer};

fn run(src: &str) -> Result<Environment, EvalError> {
    let mut interp = Interpreter::new(src);
    interp.run()
}

fn scan_all(src: &str) -> Vec<Token> {
    let mut t = Tokenizer::new(src);
    let mut out = Vec::new();
    loop {
        let tok = t.next();
        if tok == Token::EndOfFile {
            return out;
        }
        out.push(tok);
    }
}

#[test]
fn scenario_precedence() {
    let env = run("x = 1 + 2 * 3;").unwrap();
    assert_eq!(env.len(), 1);
    assert_eq!(env.get("x"), Some(7));
}

#[test]
fn scenario_two_statements() {
    let env = run("x = 1; y = x - 5;").unwrap();
    assert_eq!(env.len(), 2);
    assert_eq!(env.get("x"), Some(1));
    assert_eq!(env.get("y"), Some(-4));
}

#[test]
fn scenario_parentheses() {
    let env = run("x = (1 + 2) * 3;").unwrap();
    assert_eq!(env.len(), 1);
    assert_eq!(env.get("x"), Some(9));
}

#[test]
fn scenario_uninitialized_variable() {
    let err = run("x = y;").err().unwrap();
    assert_eq!(err, EvalError::UninitializedVariable { name: "y".to_string() });
}

#[test]
fn scenario_missing_operand() {
    let err = run("x = 1 + ;").err().unwrap();
    assert_eq!(
        err,
        EvalError::MalformedConstruct { construct: Construct::Term, found: Token::Semicolon }
    );
}

#[test]
fn scenario_unary_minus() {
    let env = run("x = -5;\ny = -x;").unwrap();
    assert_eq!(env.len(), 2);
    assert_eq!(env.get("x"), Some(-5));
    assert_eq!(env.get("y"), Some(5));
}

#[test]
fn literal_zero_accepted() {
    assert_eq!(scan_all("0"), vec![Token::Literal(0)]);
    assert_eq!(run("x = 0;").unwrap().get("x"), Some(0));
}

#[test]
fn leading_zeros_rejected() {
    assert_eq!(scan_all("00"), vec![Token::Illegal]);
    assert_eq!(scan_all("007"), vec![Token::Illegal]);
    let err = run("x = 007;").err().unwrap();
    assert_eq!(
        err,
        EvalError::MalformedConstruct { construct: Construct::Expression, found: Token::Illegal }
    );
}

#[test]
fn empty_input_is_malformed() {
    let err = run("").err().unwrap();
    assert_eq!(
        err,
        EvalError::MalformedConstruct { construct: Construct::Assignment, found: Token::EndOfFile }
    );
    let err = run("  \n\t ").err().unwrap();
    assert_eq!(
        err,
        EvalError::MalformedConstruct { construct: Construct::Assignment, found: Token::EndOfFile }
    );
}

#[test]
fn lone_semicolon_is_malformed() {
    let err = run(";").err().unwrap();
    assert_eq!(
        err,
        EvalError::MalformedConstruct { construct: Construct::Assignment, found: Token::Semicolon }
    );
}

#[test]
fn end_of_input_repeats() {
    let mut t = Tokenizer::new("a ");
    assert_eq!(t.next(), Token::Id("a".to_string()));
    for _ in 0..5 {
        assert_eq!(t.next(), Token::EndOfFile);
    }
}

#[test]
fn scanner_token_kinds() {
    assert_eq!(
        scan_all("ab_1 = (12 + -3) * x;"),
        vec![
            Token::Id("ab_1".to_string()),
            Token::Assign,
            Token::LeftParenthesis,
            Token::Literal(12),
            Token::Plus,
            Token::Minus,
            Token::Literal(3),
            Token::RightParenthesis,
            Token::Multiply,
            Token::Id("x".to_string()),
            Token::Semicolon,
        ]
    );
}

#[test]
fn scanner_illegal_character() {
    assert_eq!(scan_all("a # b"), vec![Token::Id("a".to_string()), Token::Illegal, Token::Id("b".to_string())]);
}

#[test]
fn scanner_digit_then_letters() {
    assert_eq!(scan_all("12ab"), vec![Token::Literal(12), Token::Id("ab".to_string())]);
}

#[test]
fn scanner_unicode_classes() {
    assert_eq!(scan_all("é²\u{3000}_x"), vec![Token::Id("é²".to_string()), Token::Id("_x".to_string())]);
}

#[test]
fn scanner_largest_literal() {
    assert_eq!(scan_all("2147483647"), vec![Token::Literal(2147483647)]);
    assert_eq!(scan_all("2147483648"), vec![Token::Illegal]);
    assert_eq!(scan_all("99999999999999999999"), vec![Token::Illegal]);
}

#[test]
fn round_trip_of_spellings() {
    let src = " x1 =(10+ 2)*\n-y ;\tz=0; ";
    let mut joined = String::new();
    for tok in scan_all(src) {
        match tok {
            Token::Id(n) => joined.push_str(&n),
            Token::Literal(v) => joined.push_str(&v.to_string()),
            Token::Assign => joined.push('='),
            Token::Plus => joined.push('+'),
            Token::Minus => joined.push('-'),
            Token::Multiply => joined.push('*'),
            Token::Semicolon => joined.push(';'),
            Token::LeftParenthesis => joined.push('('),
            Token::RightParenthesis => joined.push(')'),
            Token::Illegal | Token::EndOfFile => panic!("unexpected token"),
        }
    }
    let visible: String = src.chars().filter(|c| !c.is_whitespace()).collect();
    assert_eq!(joined, visible);
}

#[test]
fn subtraction_is_left_associative() {
    assert_eq!(run("x = 10 - 3 - 2;").unwrap().get("x"), Some(5));
    assert_eq!(run("x = 2 * 3 * 4 - 1 - 1;").unwrap().get("x"), Some(22));
}

#[test]
fn unary_binds_to_factor() {
    assert_eq!(run("a = 2; b = 3; x = -a * b;").unwrap().get("x"), Some(-6));
    assert_eq!(run("x = - - + 4;").unwrap().get("x"), Some(4));
}

#[test]
fn reassignment_overrides() {
    let env = run("x = 1; x = x + 41;").unwrap();
    assert_eq!(env.len(), 1);
    assert_eq!(env.get("x"), Some(42));
    assert_eq!(env.get("y"), None);
}

#[test]
fn missing_assign_is_unexpected_token() {
    let err = run("x 1;").err().unwrap();
    assert_eq!(err, EvalError::UnexpectedToken { expected: Token::Assign, found: Token::Literal(1) });
}

#[test]
fn stray_token_ends_expression() {
    let err = run("x = 1 2;").err().unwrap();
    assert_eq!(err, EvalError::UnexpectedToken { expected: Token::Semicolon, found: Token::Literal(2) });
}

#[test]
fn unclosed_parenthesis() {
    let err = run("x = (1 + 2;").err().unwrap();
    assert_eq!(
        err,
        EvalError::UnexpectedToken { expected: Token::RightParenthesis, found: Token::Semicolon }
    );
}

#[test]
fn factor_after_multiply_is_malformed() {
    let err = run("x = 2 * ;").err().unwrap();
    assert_eq!(
        err,
        EvalError::MalformedConstruct { construct: Construct::Factor, found: Token::Semicolon }
    );
}

#[test]
fn first_error_wins() {
    let err = run("x = 1; y = z; w = ;").err().unwrap();
    assert_eq!(err, EvalError::UninitializedVariable { name: "z".to_string() });
}

#[test]
fn overflow_is_reported() {
    assert_eq!(run("x = 2147483647 + 1;").err().unwrap(), EvalError::Overflow);
    assert_eq!(run("x = 0 - 2147483647 - 2;").err().unwrap(), EvalError::Overflow);
    assert_eq!(run("x = 65536 * 65536;").err().unwrap(), EvalError::Overflow);
    assert_eq!(run("x = 0 - 2147483647 - 1; y = -x;").err().unwrap(), EvalError::Overflow);
    assert_eq!(run("x = -2147483647 - 1;").unwrap().get("x"), Some(i32::MIN));
}

#[test]
fn run_twice_gives_same_result() {
    let mut interp = Interpreter::new("a = 3; b = a * a;");
    let first = interp.run().unwrap();
    let second = interp.run().unwrap();
    assert_eq!(first.get("b"), Some(9));
    assert_eq!(second.get("b"), Some(9));
    assert_eq!(second.len(), 2);
}

#[test]
fn entries_list_each_binding() {
    let env = run("x = 1; y = 2; x = 3;").unwrap();
    let mut e = env.entries();
    e.sort();
    assert_eq!(e, vec![("x".to_string(), 3), ("y".to_string(), 2)]);
}

#[test]
fn classify_follows_unicode() {
    assert_eq!(classify(' '), CharClass { whitespace: true, alphabetic: false, numeric: false });
    assert_eq!(classify('a'), CharClass { whitespace: false, alphabetic: true, numeric: false });
    assert_eq!(classify('5'), CharClass { whitespace: false, alphabetic: false, numeric: true });
    assert_eq!(classify('\u{3000}'), CharClass { whitespace: true, alphabetic: false, numeric: false });
    assert_eq!(classify('é'), CharClass { whitespace: false, alphabetic: true, numeric: false });
    assert_eq!(classify('²'), CharClass { whitespace: false, alphabetic: false, numeric: true });
    assert_eq!(classify('#'), CharClass { whitespace: false, alphabetic: false, numeric: false });
}

fn given(chars: &str, classes: Vec<CharClass>) -> Tokenizer {
    Tokenizer::with_classes(chars.chars().collect(), classes)
}

#[test]
fn given_classes_drive_the_scanner() {
    let letter = CharClass { whitespace: false, alphabetic: true, numeric: false };
    let space = CharClass { whitespace: true, alphabetic: false, numeric: false };
    let mut t = given("a#b", vec![letter, space, letter]);
    assert_eq!(t.next(), Token::Id("a".to_string()));
    assert_eq!(t.next(), Token::Id("b".to_string()));
    assert_eq!(t.next(), Token::EndOfFile);
}

#[test]
fn interpreter_over_given_classes() {
    let none = CharClass { whitespace: false, alphabetic: false, numeric: false };
    let letter = CharClass { whitespace: false, alphabetic: true, numeric: false };
    let space = CharClass { whitespace: true, alphabetic: false, numeric: false };
    let t = given("x=41+1;#", vec![letter, none, none, none, none, none, none, space]);
    let mut interp = Interpreter::from_tokenizer(t);
    let env = interp.run().unwrap();
    assert_eq!(env.len(), 1);
    assert_eq!(env.get("x"), Some(42));
}
