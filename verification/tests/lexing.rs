use sloc::lexer::{tokenize, LexError, Token};
use sloc::tracker::BraceCnt;

#[test]
fn test() {
    let source = r#"
            fn main() {
                let x = 42;
                let y = x + 1;
            }
        "#;

    let lexer = tokenize(source);

    for token in lexer {
        println!("{:?}", token);
    }
}

#[test]
fn tokens_of_simple_function() {
    let tokens = tokenize("fn t() { let x = 1; }");
    let expected: Vec<Result<Token, LexError>> = vec![
        Ok(Token::Fn),
        Ok(Token::Ident),
        Ok(Token::LParen),
        Ok(Token::RParen),
        Ok(Token::LBrace),
        Ok(Token::Let),
        Ok(Token::Ident),
        Ok(Token::Assign),
        Ok(Token::Number),
        Ok(Token::Semicolon),
        Ok(Token::RBrace),
    ];
    assert_eq!(tokens, expected);
}

#[test]
fn keywords_prefer_exact_spelling_only() {
    let tokens = tokenize("fnord let lettuce struct structs trait traits fn");
    let expected: Vec<Result<Token, LexError>> = vec![
        Ok(Token::Ident),
        Ok(Token::Let),
        Ok(Token::Ident),
        Ok(Token::Struct),
        Ok(Token::Ident),
        Ok(Token::Trait),
        Ok(Token::Ident),
        Ok(Token::Fn),
    ];
    assert_eq!(tokens, expected);
}

#[test]
fn numbers_and_identifiers_take_longest_match() {
    let tokens = tokenize("123abc45 _9");
    let expected: Vec<Result<Token, LexError>> =
        vec![Ok(Token::Number), Ok(Token::Ident), Ok(Token::Ident)];
    assert_eq!(tokens, expected);

    let ops = tokenize("=;+-*/()");
    let expected_ops: Vec<Result<Token, LexError>> = vec![
        Ok(Token::Assign),
        Ok(Token::Semicolon),
        Ok(Token::Plus),
        Ok(Token::Minus),
        Ok(Token::Star),
        Ok(Token::Slash),
        Ok(Token::LParen),
        Ok(Token::RParen),
    ];
    assert_eq!(ops, expected_ops);
}

#[test]
fn unrecognised_characters_become_errors_in_place() {
    let tokens = tokenize("#[test]");
    let expected: Vec<Result<Token, LexError>> =
        vec![Err(LexError), Err(LexError), Ok(Token::Ident), Err(LexError)];
    assert_eq!(tokens, expected);
}

#[test]
fn braces_survive_surrounding_errors() {
    let tokens = tokenize("\u{20ac}{\u{e9}}");
    let expected: Vec<Result<Token, LexError>> =
        vec![Err(LexError), Ok(Token::LBrace), Err(LexError), Ok(Token::RBrace)];
    assert_eq!(tokens, expected);
}

#[test]
fn whitespace_is_skipped_silently() {
    let tokens = tokenize("a \t\u{c}\nb");
    let expected: Vec<Result<Token, LexError>> = vec![Ok(Token::Ident), Ok(Token::Ident)];
    assert_eq!(tokens, expected);
    assert_eq!(tokenize(""), Vec::new());
    assert_eq!(tokenize("  \t "), Vec::new());
}

#[test]
fn brace_counter_tracks_depth_across_lines() {
    let mut b = BraceCnt::new();
    assert!(!b.lex_end());
    b.lex_line("fn t() {");
    assert!(!b.lex_end());
    b.lex_line("if x { y }");
    assert!(!b.lex_end());
    b.lex_line("}");
    assert!(b.lex_end());
}

#[test]
fn brace_counter_needs_a_brace_before_it_ends() {
    let mut b = BraceCnt::new();
    b.lex_line("no braces at all");
    assert!(!b.lex_end());
    b.lex_line("still none");
    assert!(!b.lex_end());
}

#[test]
fn brace_counter_depth_may_pass_below_zero() {
    let mut b = BraceCnt::new();
    b.lex_line("}");
    assert!(!b.lex_end());
    b.lex_line("{");
    assert!(b.lex_end());
}
