use template_lexer::lexer::{tokenize, Scanner, Token, TokenType};

struct LexerTest {
    name: String,
    input: String,
    expected: Vec<Token>,
}

impl LexerTest {
    fn new(name: &str, input: &str, expected: Vec<Token>) -> LexerTest {
        LexerTest { name: name.to_string(), input: input.to_string(), expected: expected }
    }
}

fn text_token(value: &str) -> Token {
    Token::new(TokenType::Text, value)
}

fn variable_token(value: &str) -> Token {
    Token::new(TokenType::Variable, value)
}

fn variable_start_token() -> Token {
    Token::new(TokenType::VariableStart, "{{")
}

fn variable_end_token() -> Token {
    Token::new(TokenType::VariableEnd, "}}")
}

fn space_token() -> Token {
    Token::new(TokenType::Space, " ")
}

fn int_token(value: &str) -> Token {
    Token::new(TokenType::Int, value)
}

fn float_token(value: &str) -> Token {
    Token::new(TokenType::Float, value)
}

fn operator_token(value: &str) -> Token {
    Token::new(TokenType::Operator, value)
}

fn error_token() -> Token {
    Token::new(TokenType::Error, "")
}

/// Kinds must agree everywhere, texts everywhere but on errors.
fn check_if_correct(expected: &Vec<Token>, obtained: &Vec<Token>) -> bool {
    if expected.len() != obtained.len() {
        return false;
    }
    for i in 0..expected.len() {
        if expected[i].kind() != obtained[i].kind() {
            return false;
        }
        if expected[i].kind() == TokenType::Error {
            continue;
        }
        if expected[i].value() != obtained[i].value() {
            return false;
        }
    }
    true
}

fn assert_lexes(input: &str, expected: Vec<Token>) {
    let tokens = Scanner::new(input).collect_tokens();
    assert!(
        check_if_correct(&expected, &tokens),
        "input {:?}: expected {:?}, got {:?}",
        input,
        expected,
        tokens
    );
}

#[test]
fn test_lexer() {
    let tests: Vec<LexerTest> = vec![
        LexerTest::new("empty", "", vec![]),
        LexerTest::new("only text", "Hello 世界", vec![text_token("Hello 世界")]),
        LexerTest::new(
            "variable and text",
            "{{ greeting }} 世界",
            vec![
                variable_start_token(),
                space_token(),
                variable_token("greeting"),
                space_token(),
                variable_end_token(),
                text_token(" 世界"),
            ],
        ),
        LexerTest::new(
            "numbers",
            "{{1 3.14}}",
            vec![
                variable_start_token(),
                int_token("1"),
                space_token(),
                float_token("3.14"),
                variable_end_token(),
            ],
        ),
        LexerTest::new(
            "invalid numbers",
            "{{1up 3.14.15}}",
            vec![
                variable_start_token(),
                error_token(),
                space_token(),
                error_token(),
                variable_end_token(),
            ],
        ),
        LexerTest::new(
            "operators",
            "{{+ - * / .}}",
            vec![
                variable_start_token(),
                operator_token("+"),
                space_token(),
                operator_token("-"),
                space_token(),
                operator_token("*"),
                space_token(),
                operator_token("/"),
                space_token(),
                operator_token("."),
                variable_end_token(),
            ],
        ),
    ];

    for test in tests {
        let tokens: Vec<Token> = Scanner::new(&test.input).collect_tokens();
        if tokens.len() != test.expected.len() {
            println!("Test {} failed: different number of tokens.", test.name);
            println!("Expected: {:?}", test.expected);
            println!("Got: {:?}", tokens);
            assert!(false);
        }
        if !check_if_correct(&test.expected, &tokens) {
            println!("Test {} failed: different tokens", test.name);
            println!("Expected: {:?}", test.expected);
            println!("Got: {:?}", tokens);
            assert!(false);
        }
    }
}

#[test]
fn empty_input_has_no_tokens() {
    assert!(tokenize("").is_empty());
    let mut scanner = Scanner::new("");
    assert!(scanner.next().is_none());
}

#[test]
fn plain_text_is_one_token() {
    assert_lexes("just some text, { and } alone", vec![text_token("just some text, { and } alone")]);
    assert_lexes("a", vec![text_token("a")]);
}

#[test]
fn text_before_and_after_expression() {
    assert_lexes(
        "Hi {{name}}!",
        vec![text_token("Hi "), variable_start_token(), variable_token("name}}!")],
    );
    assert_lexes(
        "Hi {{ name }}!",
        vec![
            text_token("Hi "),
            variable_start_token(),
            space_token(),
            variable_token("name"),
            space_token(),
            variable_end_token(),
            text_token("!"),
        ],
    );
}

#[test]
fn integer_numeral() {
    assert_lexes("{{1}}", vec![variable_start_token(), int_token("1"), variable_end_token()]);
}

#[test]
fn float_numeral() {
    assert_lexes("{{3.14}}", vec![variable_start_token(), float_token("3.14"), variable_end_token()]);
}

#[test]
fn numeral_with_two_dots_is_error() {
    let tokens = tokenize("{{1.2.3}}");
    assert_eq!(tokens.len(), 3);
    assert_eq!(tokens[1].kind(), TokenType::Error);
    assert_eq!(tokens[1].value(), "multiple decimal points in numeral");
    assert_eq!(tokens[2].kind(), TokenType::VariableEnd);
}

#[test]
fn numeral_with_letter_is_error() {
    let tokens = tokenize("{{1up}}");
    assert_eq!(tokens.len(), 3);
    assert_eq!(tokens[1].kind(), TokenType::Error);
    assert_eq!(tokens[1].value(), "invalid character in numeral");
}

#[test]
fn adjacent_operators() {
    assert_lexes(
        "{{+-*/.}}",
        vec![
            variable_start_token(),
            operator_token("+"),
            operator_token("-"),
            operator_token("*"),
            operator_token("/"),
            operator_token("."),
            variable_end_token(),
        ],
    );
}

#[test]
fn whitespace_run_is_one_token() {
    assert_lexes(
        "{{ \t\n x}}",
        vec![variable_start_token(), Token::new(TokenType::Space, " \t\n "), variable_token("x}}")],
    );
    assert_lexes(
        "{{x   }}",
        vec![
            variable_start_token(),
            variable_token("x"),
            Token::new(TokenType::Space, "   "),
            variable_end_token(),
        ],
    );
}

#[test]
fn identifier_bounded_by_spaces() {
    assert_lexes(
        "{{ greeting }}",
        vec![
            variable_start_token(),
            space_token(),
            variable_token("greeting"),
            space_token(),
            variable_end_token(),
        ],
    );
}

#[test]
fn identifier_stops_at_dot() {
    assert_lexes(
        "{{ user.name }}",
        vec![
            variable_start_token(),
            space_token(),
            variable_token("user"),
            operator_token("."),
            variable_token("name"),
            space_token(),
            variable_end_token(),
        ],
    );
}

#[test]
fn unterminated_expression_ends_cleanly() {
    assert_lexes("{{ x", vec![variable_start_token(), space_token(), variable_token("x")]);
    assert_lexes("{{ 12", vec![variable_start_token(), space_token(), int_token("12")]);
    assert_lexes("{{", vec![variable_start_token()]);
}

#[test]
fn unexpected_character_is_error_and_scanning_goes_on() {
    let tokens = tokenize("{{ # x }}");
    let kinds: Vec<TokenType> = tokens.iter().map(|t| t.kind()).collect();
    assert_eq!(
        kinds,
        vec![
            TokenType::VariableStart,
            TokenType::Space,
            TokenType::Error,
            TokenType::Space,
            TokenType::Variable,
            TokenType::Space,
            TokenType::VariableEnd,
        ]
    );
    assert_eq!(tokens[2].value(), "unexpected character in expression");
}

#[test]
fn single_brace_inside_expression_is_error() {
    let tokens = tokenize("{{ } }}");
    assert_eq!(tokens[2].kind(), TokenType::Error);
    assert_eq!(tokens[4].kind(), TokenType::VariableEnd);
}

#[test]
fn multibyte_text_round_trips() {
    let input = "Hello 世界 {{ 名前 }} ünïcödé {{ 1.5 }}";
    let tokens = tokenize(input);
    let mut joined = String::new();
    for t in &tokens {
        joined.push_str(t.value());
    }
    assert_eq!(joined, input);
    assert_eq!(tokens[3].value(), "名前");
}

#[test]
fn delimiters_pair_up() {
    let tokens = tokenize("a {{ x }} b {{ 2 }} c");
    let mut open = false;
    for t in &tokens {
        match t.kind() {
            TokenType::VariableStart => {
                assert!(!open);
                open = true;
            }
            TokenType::VariableEnd => {
                assert!(open);
                open = false;
            }
            _ => {}
        }
    }
    assert!(!open);
}

#[test]
fn next_steps_one_token_at_a_time() {
    let mut scanner = Scanner::new("a{{b}}");
    let first = scanner.next().unwrap();
    assert_eq!(first.kind(), TokenType::Text);
    assert_eq!(first.value(), "a");
    assert_eq!(scanner.next().unwrap().kind(), TokenType::VariableStart);
    let name = scanner.next().unwrap();
    assert_eq!(name.value(), "b}}");
    assert!(scanner.next().is_none());
}

#[test]
fn unicode_whitespace_and_letters() {
    assert_lexes(
        "{{\u{3000}été\u{a0}}}",
        vec![
            variable_start_token(),
            Token::new(TokenType::Space, "\u{3000}"),
            variable_token("été"),
            Token::new(TokenType::Space, "\u{a0}"),
            variable_end_token(),
        ],
    );
}
